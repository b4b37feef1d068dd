//! Philips' DSDIFF container.

use crate::bytes;
use crate::dsd::{DsdFormat, DsdRate};
use crate::reader;
use crate::reader::tags;
use crate::reader::tags::{parse_diin, Tags, TrackTags};
use crate::reader::{DsdRecording, DsdSource, ReadError, Stretch};
use crate::rows;
use crate::text;
use vstd::arithmetic::div_mod::{lemma_fundamental_div_mod, lemma_mod_bound};
use vstd::prelude::*;

verus! {

pub const CHUNK_BYTES: usize = 4096;

/// Why a file is not one this player reads.
#[derive(Debug, Clone, Copy, PartialEq, Eq, Structural)]
pub enum DffError {
    Truncated,
    Frm8Chunk,
    FormType,
    TruncatedHeader,
    TruncatedBody,
    DstCompressed,
    Properties,
    SubChunk,
    RateSize { size: u64 },
    ChannelsSize { size: u64 },
    Channels { channels: u16 },
    CompressionSize { size: u64 },
    /// Neither uncompressed nor anything else this player knows, by the four bytes that name it.
    Compression { a: u8, b: u8, c: u8, d: u8 },
    NoSound,
    NoRate,
    NoChannels,
}

impl DffError {
    /// What went wrong, in a line.
    pub open spec fn line(self) -> Seq<char> {
        match self {
            DffError::Truncated => "truncated DSDIFF header"@,
            DffError::Frm8Chunk => "missing FRM8 chunk"@,
            DffError::FormType => "not a DSD form type"@,
            DffError::TruncatedHeader => "truncated chunk header"@,
            DffError::TruncatedBody => "truncated chunk body"@,
            DffError::DstCompressed => "DST compressed DSDIFF is not supported"@,
            DffError::Properties => "PROP chunk is not sound properties"@,
            DffError::SubChunk => "PROP sub-chunk runs past the chunk body"@,
            DffError::RateSize { size } => "bad FS chunk size "@ + text::decimal(size as nat),
            DffError::ChannelsSize { size } => "bad CHNL chunk size "@ + text::decimal(size as nat),
            DffError::Channels { channels } => "unsupported channel count "@ + text::decimal(
                channels as nat,
            ),
            DffError::CompressionSize { size } => "bad CMPR chunk size "@ + text::decimal(
                size as nat,
            ),
            DffError::Compression { a, b, c, d } => "unsupported DSDIFF compression ["@
                + text::decimal(a as nat) + ", "@ + text::decimal(b as nat) + ", "@ + text::decimal(
                c as nat,
            ) + ", "@ + text::decimal(d as nat) + "]"@,
            DffError::NoSound => "no DSD sound data chunk found"@,
            DffError::NoRate => "no FS chunk giving the sample rate"@,
            DffError::NoChannels => "no CHNL chunk giving the channel count"@,
        }
    }

    /// What went wrong, in a line.
    pub fn message(self) -> (line: String)
        ensures
            line@ == self.line(),
    {
        match self {
            DffError::Truncated => text::owned("truncated DSDIFF header"),
            DffError::Frm8Chunk => text::owned("missing FRM8 chunk"),
            DffError::FormType => text::owned("not a DSD form type"),
            DffError::TruncatedHeader => text::owned("truncated chunk header"),
            DffError::TruncatedBody => text::owned("truncated chunk body"),
            DffError::DstCompressed => text::owned("DST compressed DSDIFF is not supported"),
            DffError::Properties => text::owned("PROP chunk is not sound properties"),
            DffError::SubChunk => text::owned("PROP sub-chunk runs past the chunk body"),
            DffError::RateSize { size } => text::with_number("bad FS chunk size ", size),
            DffError::ChannelsSize { size } => text::with_number("bad CHNL chunk size ", size),
            DffError::Channels { channels } => text::with_number(
                "unsupported channel count ",
                channels as u64,
            ),
            DffError::CompressionSize { size } => text::with_number("bad CMPR chunk size ", size),
            DffError::Compression { a, b, c, d } => {
                let mut line: String = text::with_number(
                    "unsupported DSDIFF compression [",
                    a as u64,
                );
                line.append(", ");
                line.append(text::decimal_of(b as u64).as_str());
                line.append(", ");
                line.append(text::decimal_of(c as u64).as_str());
                line.append(", ");
                line.append(text::decimal_of(d as u64).as_str());
                line.append("]");
                line
            },
            DffError::NoSound => text::owned("no DSD sound data chunk found"),
            DffError::NoRate => text::owned("no FS chunk giving the sample rate"),
            DffError::NoChannels => text::owned("no CHNL chunk giving the channel count"),
        }
    }
}

/// The sample rate and the channel count, as far as a property chunk gives them.
pub struct Properties {
    pub rate: Option<u32>,
    pub channels: Option<u16>,
}

/// What one sub-chunk of a property chunk adds: `FS  ` the rate, `CHNL` the channels, and
/// `CMPR` a compression that must be none.
pub open spec fn property(body: Seq<u8>, offset: int, known: Properties) -> Result<
    Properties,
    DffError,
> {
    let size = bytes::be64(body, offset + 4);
    let start = offset + 12;
    if bytes::mark4(body, offset, 0x46, 0x53, 0x20, 0x20) {
        if size != 4 {
            Err(DffError::RateSize { size: size as u64 })
        } else {
            Ok(Properties { rate: Some(bytes::be32(body, start) as u32), ..known })
        }
    } else if bytes::mark4(body, offset, 0x43, 0x48, 0x4E, 0x4C) {
        if size < 2 {
            Err(DffError::ChannelsSize { size: size as u64 })
        } else if !(1 <= bytes::be16(body, start) <= 6) {
            Err(DffError::Channels { channels: bytes::be16(body, start) as u16 })
        } else {
            Ok(Properties { channels: Some(bytes::be16(body, start) as u16), ..known })
        }
    } else if bytes::mark4(body, offset, 0x43, 0x4D, 0x50, 0x52) {
        if size < 4 {
            Err(DffError::CompressionSize { size: size as u64 })
        } else if !bytes::mark4(body, start, 0x44, 0x53, 0x44, 0x20) {
            Err(
                DffError::Compression {
                    a: body[start],
                    b: body[start + 1],
                    c: body[start + 2],
                    d: body[start + 3],
                },
            )
        } else {
            Ok(known)
        }
    } else {
        Ok(known)
    }
}

/// What the sub-chunks from `offset` on add.
pub open spec fn properties_from(body: Seq<u8>, offset: int, known: Properties) -> Result<
    Properties,
    DffError,
>
    decreases body.len() + 1 - offset,
{
    let size = bytes::be64(body, offset + 4);
    let end = offset + 12 + size;
    if offset < 0 || offset + 12 > body.len() {
        Ok(known)
    } else if end > body.len() || size < 0 {
        Err(DffError::SubChunk)
    } else {
        match property(body, offset, known) {
            Err(error) => Err(error),
            Ok(next) => properties_from(body, end + end % 2, next),
        }
    }
}

/// The sample rate and channel count a property chunk gives.
pub open spec fn properties(body: Seq<u8>) -> Result<Properties, DffError> {
    if body.len() < 4 || !bytes::mark4(body, 0, 0x53, 0x4E, 0x44, 0x20) {
        Err(DffError::Properties)
    } else {
        properties_from(body, 4, Properties { rate: None, channels: None })
    }
}

fn parse_property(body: &[u8], offset: usize, known: Properties) -> (out: Result<
    Properties,
    DffError,
>)
    requires
        offset + 12 <= body@.len(),
        offset + 12 + bytes::be64(body@, offset + 4) <= body@.len(),
    ensures
        out == property(body@, offset as int, known),
{
    assert(body.len() == body@.len());
    let size: u64 = bytes::read_be64(body, offset + 4);
    let start: usize = offset + 12;
    if bytes::is_mark4(body, offset, 0x46, 0x53, 0x20, 0x20) {
        if size != 4 {
            return Err(DffError::RateSize { size });
        }
        return Ok(Properties { rate: Some(bytes::read_be32(body, start)), channels: known.channels });
    }
    if bytes::is_mark4(body, offset, 0x43, 0x48, 0x4E, 0x4C) {
        if size < 2 {
            return Err(DffError::ChannelsSize { size });
        }
        let channels: u16 = bytes::read_be16(body, start);
        if channels < 1 || channels > 6 {
            return Err(DffError::Channels { channels });
        }
        return Ok(Properties { rate: known.rate, channels: Some(channels) });
    }
    if bytes::is_mark4(body, offset, 0x43, 0x4D, 0x50, 0x52) {
        if size < 4 {
            return Err(DffError::CompressionSize { size });
        }
        if !bytes::is_mark4(body, start, 0x44, 0x53, 0x44, 0x20) {
            return Err(
                DffError::Compression {
                    a: body[start],
                    b: body[start + 1],
                    c: body[start + 2],
                    d: body[start + 3],
                },
            );
        }
    }
    Ok(known)
}

/// Pull the sample rate and channel count out of a PROP/SND chunk body.
pub fn parse_properties(body: &[u8]) -> (out: Result<Properties, DffError>)
    ensures
        out == properties(body@),
        out matches Ok(found) ==> (found.channels matches Some(count) ==> 1 <= count <= 6),
{
    if body.len() < 4 || !bytes::is_mark4(body, 0, 0x53, 0x4E, 0x44, 0x20) {
        return Err(DffError::Properties);
    }
    let mut known: Properties = Properties { rate: None, channels: None };
    let mut offset: usize = 4;
    while offset <= body.len() && body.len() - offset >= 12
        invariant
            body@.len() >= 4,
            bytes::mark4(body@, 0, 0x53, 0x4E, 0x44, 0x20),
            properties(body@) == properties_from(body@, offset as int, known),
            known.channels matches Some(count) ==> 1 <= count <= 6,
        decreases body@.len() + 1 - offset,
    {
        let size: u64 = bytes::read_be64(body, offset + 4);
        let start: usize = offset + 12;
        if size > (body.len() - start) as u64 {
            return Err(DffError::SubChunk);
        }
        let end: usize = start + size as usize;
        known = match parse_property(body, offset, known) {
            Ok(next) => next,
            Err(error) => {
                return Err(error);
            },
        };
        if end == body.len() {
            assert(properties_from(body@, end + end % 2, known) == Ok::<Properties, DffError>(
                known,
            ));
            return Ok(known);
        }
        offset = end + end % 2;
    }
    Ok(known)
}

/// What one pass over the chunks in a DSDIFF form collects.
#[verifier::ext_equal]
pub struct Walk {
    pub rate: Option<u32>,
    pub channels: Option<u16>,
    /// Where the sound data body starts, and how many bytes it declares.
    pub sound: Option<(int, int)>,
    pub tags: Tags,
}

/// A walk that has seen nothing yet.
pub open spec fn walk_start() -> Walk {
    Walk { rate: None, channels: None, sound: None, tags: tags::no_tags() }
}

/// What the chunks from `at` on add, and what stopped the walk before the end of the file, if
/// anything did. The sound data is stepped over, and may run past the end; every other body
/// has to be there, with a byte of padding where its length is odd.
pub open spec fn walked(file: Seq<u8>, at: int, walk: Walk) -> (Walk, Option<DffError>)
    decreases
            (if at < file.len() {
                file.len() - at
            } else {
                0
            }),
{
    let size = bytes::be64(file, at + 4);
    let body = at + 12;
    let next = body + size + size % 2;
    if at < 0 || at >= file.len() {
        (walk, None)
    } else if body > file.len() {
        (walk, Some(DffError::TruncatedHeader))
    } else if size < 0 {
        (walk, None)
    } else if bytes::mark4(file, at, 0x44, 0x53, 0x44, 0x20) {
        walked(file, next, Walk { sound: Some((body, size)), ..walk })
    } else if bytes::mark4(file, at, 0x44, 0x53, 0x54, 0x20) {
        (walk, Some(DffError::DstCompressed))
    } else if next > file.len() {
        (walk, Some(DffError::TruncatedBody))
    } else if bytes::mark4(file, at, 0x50, 0x52, 0x4F, 0x50) {
        match properties(file.subrange(body, body + size)) {
            Err(error) => (walk, Some(error)),
            Ok(found) => walked(
                file,
                next,
                Walk { rate: found.rate, channels: found.channels, ..walk },
            ),
        }
    } else if bytes::mark4(file, at, 0x44, 0x49, 0x49, 0x4E) {
        walked(
            file,
            next,
            Walk { tags: tags::diin_tags(file.subrange(body, body + size), 0, walk.tags), ..walk },
        )
    } else {
        walked(file, next, walk)
    }
}

/// What a DSDIFF file holds.
pub struct Layout {
    pub format: DsdFormat,
    /// Where the audio starts.
    pub start: int,
    /// DSD bytes per channel that the sound data chunk declares.
    pub declared: int,
    pub tags: Tags,
}

/// The layout of a DSDIFF file, or why it is refused. A file that ends mid-chunk after the
/// audio still plays the audio it has, so only a failure before the sound data was found is
/// worth refusing the file over.
pub open spec fn layout(file: Seq<u8>) -> Result<Layout, DffError> {
    let (walk, stopped) = walked(file, 16, walk_start());
    if file.len() < 16 {
        Err(DffError::Truncated)
    } else if !bytes::mark4(file, 0, 0x46, 0x52, 0x4D, 0x38) {
        Err(DffError::Frm8Chunk)
    } else if !bytes::mark4(file, 12, 0x44, 0x53, 0x44, 0x20) {
        Err(DffError::FormType)
    } else {
        match walk.sound {
            None => match stopped {
                Some(error) => Err(error),
                None => Err(DffError::NoSound),
            },
            Some((start, size)) => match walk.rate {
                None => Err(DffError::NoRate),
                Some(rate) => match walk.channels {
                    None => Err(DffError::NoChannels),
                    Some(channels) => Ok(
                        Layout {
                            format: DsdFormat { rate: DsdRate(rate), channels },
                            start,
                            declared: size / (channels as int),
                            tags: walk.tags,
                        },
                    ),
                },
            },
        }
    }
}

impl Layout {
    /// Bytes per channel that a file of `len` bytes gives.
    pub open spec fn length(self, len: int) -> int {
        let readable = (len - self.start) / (self.format.channels as int);
        if readable < self.declared {
            readable
        } else {
            self.declared
        }
    }

    /// The recording a file of this layout holds: the channels take turns, byte by byte.
    pub open spec fn recording(self, file: Seq<u8>) -> DsdRecording {
        DsdRecording {
            kind: "DSDIFF"@,
            format: self.format,
            declared: self.declared,
            tags: self.tags,
            chunk: CHUNK_BYTES as int,
            step: 1,
            exact: true,
            audio: Seq::new(
                self.format.channels as nat,
                |c: int|
                    Seq::new(
                        self.length(file.len() as int) as nat,
                        |i: int| file[self.start + i * self.format.channels + c],
                    ),
            ),
            ending: None,
            later: Seq::empty(),
        }
    }
}

/// The walk as it is held while it runs.
struct Walking {
    rate: Option<u32>,
    channels: Option<u16>,
    sound: Option<(usize, u64)>,
    tags: TrackTags,
}

impl Walking {
    spec fn view(self) -> Walk {
        Walk {
            rate: self.rate,
            channels: self.channels,
            sound: match self.sound {
                Some((start, size)) => Some((start as int, size as int)),
                None => None,
            },
            tags: self.tags@,
        }
    }

    spec fn wf(self, len: int) -> bool {
        &&& self.channels matches Some(count) ==> 1 <= count <= 6
        &&& self.sound matches Some((start, size)) ==> start <= len
    }

    /// Read every chunk in the form. The edited-master information sits either side of the
    /// sound data, so this runs to the end of the file rather than stopping at the audio.
    /// Stepping over the audio may lead past the end of a truncated file, which ends the walk.
    fn run(&mut self, file: &[u8]) -> (stopped: Option<DffError>)
        requires
            file@.len() >= 16,
            old(self)@ == walk_start(),
        ensures
            (final(self)@, stopped) == walked(file@, 16, walk_start()),
            final(self).wf(file@.len() as int),
    {
        let ghost whole = walked(file@, 16, walk_start());
        let mut at: usize = 16;
        while at < file.len()
            invariant
                file@.len() >= 16,
                whole == walked(file@, 16, walk_start()),
                whole == walked(file@, at as int, self@),
                self.wf(file@.len() as int),
            decreases file@.len() - at,
        {
            let ghost before = self@;
            if file.len() - at < 12 {
                return Some(DffError::TruncatedHeader);
            }
            let size: u64 = bytes::read_be64(file, at + 4);
            let body: usize = at + 12;
            if bytes::is_mark4(file, at, 0x44, 0x53, 0x44, 0x20) {
                self.sound = Some((body, size));
                if size >= (file.len() - body) as u64 {
                    assert(walked(file@, body + size + size % 2, self@) == (self@, None::<DffError>));
                    return None;
                }
                at = body + size as usize + (size % 2) as usize;
                continue;
            }
            if bytes::is_mark4(file, at, 0x44, 0x53, 0x54, 0x20) {
                return Some(DffError::DstCompressed);
            }
            let room: u64 = (file.len() - body) as u64;
            if size > room || (size == room && size % 2 == 1) {
                return Some(DffError::TruncatedBody);
            }
            let end: usize = body + size as usize;
            if bytes::is_mark4(file, at, 0x50, 0x52, 0x4F, 0x50) {
                let part: Vec<u8> = bytes::copy_between(file, body, end);
                match parse_properties(part.as_slice()) {
                    Ok(found) => {
                        self.rate = found.rate;
                        self.channels = found.channels;
                    },
                    Err(error) => {
                        return Some(error);
                    },
                }
            } else if bytes::is_mark4(file, at, 0x44, 0x49, 0x49, 0x4E) {
                let part: Vec<u8> = bytes::copy_between(file, body, end);
                parse_diin(part.as_slice(), &mut self.tags);
            }
            at = end + (size % 2) as usize;
        }
        None
    }
}

/// Reader for Philips' DSDIFF container: big-endian chunks, byte-interleaved MSB-first DSD.
pub struct DffReader {
    file: Vec<u8>,
    format: DsdFormat,
    audio_bytes_per_channel: u64,
    /// Where the sound data chunk's body starts.
    data_start: usize,
    /// Bytes per channel that the file holds, of those it declares.
    readable: u64,
    emitted: u64,
    tags: TrackTags,
}

impl DffReader {
    spec fn layout(&self) -> Layout {
        Layout {
            format: self.format,
            start: self.data_start as int,
            declared: self.audio_bytes_per_channel as int,
            tags: self.tags@,
        }
    }

    /// Walk a file's chunks, and stand at the start of its audio.
    pub fn new(file: Vec<u8>) -> (out: Result<Self, DffError>)
        ensures
            match layout(file@) {
                Ok(layout) => {
                    &&& out matches Ok(reader)
                    &&& reader::ready(
                        reader.wf(),
                        reader.recording(),
                        reader.position(),
                        reader.upcoming(),
                    )
                    &&& reader.recording() == layout.recording(file@)
                    &&& reader.position() == 0
                },
                Err(error) => out == Err::<Self, DffError>(error),
            },
    {
        if file.len() < 16 {
            return Err(DffError::Truncated);
        }
        if !bytes::is_mark4(file.as_slice(), 0, 0x46, 0x52, 0x4D, 0x38) {
            return Err(DffError::Frm8Chunk);
        }
        if !bytes::is_mark4(file.as_slice(), 12, 0x44, 0x53, 0x44, 0x20) {
            return Err(DffError::FormType);
        }
        let mut walk: Walking = Walking {
            rate: None,
            channels: None,
            sound: None,
            tags: TrackTags::default(),
        };
        let stopped: Option<DffError> = walk.run(file.as_slice());
        let (data_start, data_bytes): (usize, u64) = match walk.sound {
            Some(sound) => sound,
            None => {
                return match stopped {
                    Some(error) => Err(error),
                    None => Err(DffError::NoSound),
                };
            },
        };
        let rate: u32 = match walk.rate {
            Some(rate) => rate,
            None => {
                return Err(DffError::NoRate);
            },
        };
        let channels: u16 = match walk.channels {
            Some(channels) => channels,
            None => {
                return Err(DffError::NoChannels);
            },
        };
        let audio_bytes_per_channel: u64 = data_bytes / channels as u64;
        let in_file: u64 = (file.len() - data_start) as u64 / channels as u64;
        let readable: u64 = if in_file < audio_bytes_per_channel {
            in_file
        } else {
            audio_bytes_per_channel
        };
        let reader: DffReader = DffReader {
            file,
            format: DsdFormat { rate: DsdRate(rate), channels },
            audio_bytes_per_channel,
            data_start,
            readable,
            emitted: 0,
            tags: walk.tags,
        };
        Ok(reader)
    }
}

impl DsdSource for DffReader {
    closed spec fn wf(&self) -> bool {
        &&& self.data_start <= self.file@.len()
        &&& 1 <= self.format.channels <= 6
        &&& self.readable == self.layout().length(self.file@.len() as int)
        &&& self.emitted <= self.audio_bytes_per_channel
    }

    closed spec fn recording(&self) -> DsdRecording {
        self.layout().recording(self.file@)
    }

    closed spec fn position(&self) -> int {
        self.emitted as int
    }

    closed spec fn upcoming(&self) -> Seq<Seq<u8>> {
        reader::rest(self.recording().audio, self.position())
    }

    open spec fn ending(&self) -> Option<ReadError> {
        None
    }

    open spec fn later(&self) -> Seq<Stretch<Seq<Seq<u8>>>> {
        Seq::empty()
    }

    open spec fn aimed(&self, place: int) -> Seq<Stretch<Seq<Seq<u8>>>> {
        reader::course(
            reader::rest(self.recording().audio, self.sought(place)->Ok_0 as int),
            None,
            Seq::empty(),
        )
    }

    open spec fn sought(&self, place: int) -> Result<u64, ReadError> {
        Ok(reader::inside(place, self.recording().declared) as u64)
    }

    fn container(&self) -> (name: &'static str) {
        "DSDIFF"
    }

    fn format(&self) -> (format: DsdFormat) {
        self.format
    }

    fn total_bytes_per_channel(&self) -> (total: u64) {
        self.audio_bytes_per_channel
    }

    fn chunk_bytes(&self) -> (bytes: usize) {
        CHUNK_BYTES
    }

    fn tags(&self) -> (tags: &TrackTags) {
        &self.tags
    }

    fn read(&mut self, planes: &mut [Box<[u8]>]) -> (out: Result<usize, ReadError>)
        ensures
            out is Ok,
    {
        if self.emitted >= self.readable {
            proof {
                let whole = self.recording().audio;
                assert forall|c: int| 0 <= c < whole.len() implies #[trigger] self.upcoming()[c]
                    == Seq::<u8>::empty() by {
                    assert(whole[c].len() == self.readable);
                    assert(self.upcoming()[c] =~= Seq::empty());
                }
                assert(self.upcoming() =~= reader::no_bytes(self.format.channels as int));
            }
            return Ok(0);
        }
        let ghost layout = self.layout();
        let len: usize = self.file.len();
        let channels: usize = self.format.channels as usize;
        let left: u64 = self.readable - self.emitted;
        let count: usize = if left < CHUNK_BYTES as u64 {
            left as usize
        } else {
            CHUNK_BYTES
        };
        let ghost from = self.emitted as int;
        let ghost audio = layout.recording(self.file@).audio;
        proof {
            let held = len - self.data_start;
            let whole = held / channels as int;
            lemma_fundamental_div_mod(held, channels as int);
            lemma_mod_bound(held, channels as int);
            assert((from + count) * channels <= held) by (nonlinear_arith)
                requires
                    held == channels * whole + held % (channels as int),
                    0 <= held % (channels as int),
                    from + count <= whole,
                    1 <= channels,
            ;
            assert(from <= from * channels && (from + count) * channels == from * channels + count
                * channels && 0 <= count * channels) by (nonlinear_arith)
                requires
                    0 <= from,
                    0 <= count,
                    1 <= channels,
            ;
        }
        let start: usize = self.data_start + self.emitted as usize * channels;
        let mut c: usize = 0;
        while c < channels
            invariant
                c <= channels <= planes@.len(),
                1 <= channels == layout.format.channels,
                layout == self.layout(),
                len == self.file@.len(),
                0 < count <= CHUNK_BYTES,
                start == layout.start + from * channels,
                start + count * channels <= len,
                0 <= from,
                from + count <= layout.length(len as int),
                audio == layout.recording(self.file@).audio,
                reader::same_lengths(old(planes)@, planes@),
                reader::planes_hold(old(planes)@, layout.recording(self.file@)),
                forall|k: int, i: int|
                    0 <= k < c && 0 <= i < count ==> #[trigger] planes@[k]@[i] == audio[k][from + i],
            decreases channels - c,
        {
            let mut i: usize = 0;
            while i < count
                invariant
                    i <= count,
                    c < channels <= planes@.len(),
                    1 <= channels == layout.format.channels,
                    layout == self.layout(),
                    len == self.file@.len(),
                    0 < count <= CHUNK_BYTES,
                    start == layout.start + from * channels,
                    start + count * channels <= len,
                    0 <= from,
                    from + count <= layout.length(len as int),
                    audio == layout.recording(self.file@).audio,
                    reader::same_lengths(old(planes)@, planes@),
                    planes@[c as int]@.len() >= count,
                    forall|k: int, j: int|
                        0 <= k < c && 0 <= j < count ==> #[trigger] planes@[k]@[j] == audio[k][from
                            + j],
                    forall|j: int|
                        0 <= j < i ==> #[trigger] planes@[c as int]@[j] == audio[c as int][from + j],
                decreases count - i,
            {
                proof {
                    rows::lemma_row_fits(i as int, count as int, channels as int);
                    assert((from + i) * channels == from * channels + i * channels)
                        by (nonlinear_arith);
                }
                let byte: u8 = self.file[start + i * channels + c];
                planes[c][i] = byte;
                i += 1;
            }
            c += 1;
        }
        self.emitted = self.emitted + count as u64;
        proof {
            reader::lemma_rest(audio, channels as int, from, count as int);
        }
        Ok(count)
    }

    /// DSDIFF interleaves the channels byte by byte, so every byte offset is a position.
    fn seek(&mut self, bytes_per_channel: u64) -> (out: Result<u64, ReadError>)
        ensures
            out == Ok::<u64, ReadError>(
                if bytes_per_channel < old(self).recording().declared {
                    bytes_per_channel
                } else {
                    old(self).recording().declared as u64
                },
            ),
    {
        self.emitted = if bytes_per_channel < self.audio_bytes_per_channel {
            bytes_per_channel
        } else {
            self.audio_bytes_per_channel
        };
        Ok(self.emitted)
    }
}

} // verus!
