//! FLAC: claxon decodes the frames, and the metadata ahead of them is read here because the
//! seek table is what makes a jump cost one read instead of a whole decode.

use crate::audio::{PcmFormat, CARRIER_BITS};
use crate::bytes;
use crate::reader;
use crate::reader::tags;
use crate::reader::tags::{Tags, TrackTags};
use crate::reader::{PcmRecording, PcmSource, ReadError, Stretch};
use crate::rows;
use crate::text;
use vstd::prelude::*;
use vstd::utf8;

verus! {

pub const STREAMINFO_LEN: usize = 34;

pub const SEEK_POINT_LEN: usize = 18;

/// A seek point the encoder reserved but never filled in.
pub const SEEK_POINT_PLACEHOLDER: u64 = 0xffff_ffff_ffff_ffff;

/// A metadata block larger than this is carrying artwork this player has no use for.
pub const MAX_BLOCK_BYTES: u32 = 0x40_0000;

pub const BLOCK_STREAMINFO: u8 = 0;

pub const BLOCK_SEEKTABLE: u8 = 3;

pub const BLOCK_VORBIS_COMMENT: u8 = 4;

/// The longest file whose frames can be counted in 64 bits whatever they hold. It is as much as
/// the user half of a 48-bit address space, so no machine holds a longer one in memory.
pub const MAX_FILE_BYTES: u64 = 0x8000_0000_0000;

/// Why a file could not be opened as FLAC.
#[derive(Debug, Clone, Copy, PartialEq, Eq, Structural)]
pub enum FlacError {
    Truncated,
    Marker,
    NoStreamInfo,
    StreamInfoLength { bytes: usize },
    Rate,
    BlockSize,
    UnknownLength,
    Width { bits: u32 },
    TooLarge,
}

impl FlacError {
    /// What went wrong, in a line.
    pub open spec fn line(self) -> Seq<char> {
        match self {
            FlacError::Truncated => "the file ends inside its metadata"@,
            FlacError::Marker => "missing fLaC marker"@,
            FlacError::NoStreamInfo => "no STREAMINFO block"@,
            FlacError::StreamInfoLength { bytes } => "STREAMINFO is "@ + text::decimal(
                bytes as nat,
            ) + " bytes, not 34"@,
            FlacError::Rate => "STREAMINFO declares a sample rate of 0"@,
            FlacError::BlockSize => "STREAMINFO declares a block size of 0"@,
            FlacError::UnknownLength =>
                "the stream does not declare its length, which this player needs to size the transport"@,
            FlacError::Width { bits } => text::decimal(bits as nat)
                + " bit FLAC cannot be carried without discarding "@ + text::decimal(
                if bits > CARRIER_BITS {
                    (bits - CARRIER_BITS) as nat
                } else {
                    0
                },
            ) + " bits per sample"@,
            FlacError::TooLarge => "the file is too long to count its frames"@,
        }
    }

    /// What went wrong, in a line.
    pub fn message(self) -> (line: String)
        ensures
            line@ == self.line(),
    {
        match self {
            FlacError::Truncated => text::owned("the file ends inside its metadata"),
            FlacError::Marker => text::owned("missing fLaC marker"),
            FlacError::NoStreamInfo => text::owned("no STREAMINFO block"),
            FlacError::StreamInfoLength { bytes } => {
                let mut line: String = text::with_number("STREAMINFO is ", bytes as u64);
                line.append(" bytes, not 34");
                line
            },
            FlacError::Rate => text::owned("STREAMINFO declares a sample rate of 0"),
            FlacError::BlockSize => text::owned("STREAMINFO declares a block size of 0"),
            FlacError::UnknownLength => text::owned(
                "the stream does not declare its length, which this player needs to size the transport",
            ),
            FlacError::Width { bits } => {
                let mut line: String = text::decimal_of(bits as u64);
                line.append(" bit FLAC cannot be carried without discarding ");
                let excess: u32 = if bits > CARRIER_BITS {
                    bits - CARRIER_BITS
                } else {
                    0
                };
                line.append(text::decimal_of(excess as u64).as_str());
                line.append(" bits per sample");
                line
            },
            FlacError::TooLarge => text::owned("the file is too long to count its frames"),
        }
    }
}

/// What STREAMINFO says: the format, the frames in all, and the most frames one block holds.
pub open spec fn stream_info(body: Seq<u8>) -> Result<(PcmFormat, u64, usize), FlacError> {
    let packed = bytes::be64(body, 10);
    let rate = packed / 0x1000_0000_0000;
    let channels = packed / 0x200_0000_0000 % 8 + 1;
    let bits = packed / 0x10_0000_0000 % 32 + 1;
    let total = packed % 0x10_0000_0000;
    let block = bytes::be16(body, 2);
    if body.len() < STREAMINFO_LEN {
        Err(FlacError::StreamInfoLength { bytes: body.len() as usize })
    } else if rate == 0 {
        Err(FlacError::Rate)
    } else if block == 0 {
        Err(FlacError::BlockSize)
    } else if total == 0 {
        Err(FlacError::UnknownLength)
    } else if bits > CARRIER_BITS {
        Err(FlacError::Width { bits: bits as u32 })
    } else {
        Ok(
            (
                PcmFormat { rate: rate as u32, bits: bits as u32, channels: channels as u16 },
                total as u64,
                block as usize,
            ),
        )
    }
}

pub fn parse_streaminfo(body: &[u8]) -> (out: Result<(PcmFormat, u64, usize), FlacError>)
    ensures
        out == stream_info(body@),
{
    if body.len() < STREAMINFO_LEN {
        return Err(FlacError::StreamInfoLength { bytes: body.len() });
    }
    let max_block_frames: usize = bytes::read_be16(body, 2) as usize;
    let packed: u64 = bytes::read_be64(body, 10);
    let rate: u32 = (packed / 0x1000_0000_0000) as u32;
    let channels: u16 = (packed / 0x200_0000_0000 % 8) as u16 + 1;
    let bits: u32 = (packed / 0x10_0000_0000 % 32) as u32 + 1;
    let total_frames: u64 = packed % 0x10_0000_0000;
    if rate == 0 {
        return Err(FlacError::Rate);
    }
    if max_block_frames == 0 {
        return Err(FlacError::BlockSize);
    }
    if total_frames == 0 {
        return Err(FlacError::UnknownLength);
    }
    if bits > CARRIER_BITS {
        return Err(FlacError::Width { bits });
    }
    Ok((PcmFormat { rate, bits, channels }, total_frames, max_block_frames))
}

/// Where a seek table says a sample number sits in the file.
#[derive(Debug, Clone, Copy, PartialEq, Eq, Structural)]
pub struct SeekPoint {
    pub sample: u64,
    /// Bytes from the first audio frame, which is what the seek table counts from.
    pub offset: u64,
}

/// The points of a seek table from entry `index` on, without the placeholders an encoder
/// leaves for points it never filled in.
pub open spec fn filled_points(body: Seq<u8>, index: int) -> Seq<SeekPoint>
    decreases body.len() - index * SEEK_POINT_LEN,
{
    let at = index * SEEK_POINT_LEN;
    if at + SEEK_POINT_LEN > body.len() || index < 0 {
        Seq::empty()
    } else {
        let later = filled_points(body, index + 1);
        let sample = bytes::be64(body, at) as u64;
        if sample == SEEK_POINT_PLACEHOLDER {
            later
        } else {
            seq![SeekPoint { sample, offset: bytes::be64(body, at + 8) as u64 }] + later
        }
    }
}

/// How many of `points`, counted from the front, an added point goes behind: all but those at
/// the end that come later in the stream.
pub open spec fn place_for(points: Seq<SeekPoint>, sample: u64) -> int
    decreases points.len(),
{
    if points.len() == 0 || points.last().sample <= sample {
        points.len() as int
    } else {
        place_for(points.drop_last(), sample)
    }
}

/// `points` in stream order. Points of the same sample keep the order they came in.
pub open spec fn in_stream_order(points: Seq<SeekPoint>) -> Seq<SeekPoint>
    decreases points.len(),
{
    if points.len() == 0 {
        Seq::empty()
    } else {
        let sorted = in_stream_order(points.drop_last());
        sorted.insert(place_for(sorted, points.last().sample), points.last())
    }
}

proof fn lemma_place(points: Seq<SeekPoint>, sample: u64)
    requires
        forall|i: int, j: int| 0 <= i <= j < points.len() ==> points[i].sample <= points[j].sample,
    ensures
        0 <= place_for(points, sample) <= points.len(),
        forall|i: int|
            0 <= i < place_for(points, sample) ==> (#[trigger] points[i]).sample <= sample,
        forall|i: int|
            place_for(points, sample) <= i < points.len() ==> sample < (#[trigger] points[i]).sample,
    decreases points.len(),
{
    if points.len() > 0 && points.last().sample > sample {
        lemma_place(points.drop_last(), sample);
        assert forall|i: int| 0 <= i < points.len() - 1 implies #[trigger] points[i]
            == points.drop_last()[i] by {}
    }
}

/// A seek table comes out ordered by sample, whatever order the file has it in.
pub proof fn seek_points_come_in_stream_order(points: Seq<SeekPoint>)
    ensures
        in_stream_order(points).len() == points.len(),
        forall|i: int, j: int|
            0 <= i <= j < points.len() ==> in_stream_order(points)[i].sample <= in_stream_order(
                points,
            )[j].sample,
        in_stream_order(points).to_multiset() == points.to_multiset(),
    decreases points.len(),
{
    if points.len() > 0 {
        let head = points.drop_last();
        let sorted = in_stream_order(head);
        seek_points_come_in_stream_order(head);
        lemma_place(sorted, points.last().sample);
        let at = place_for(sorted, points.last().sample);
        let all = in_stream_order(points);
        assert(all.remove(at) =~= sorted);
        assert(points =~= head.push(points.last()));
        assert(all[at] == points.last());
        broadcast use {
            vstd::seq_lib::group_to_multiset_ensures,
            vstd::multiset::group_multiset_axioms,
        };

        assert(all.to_multiset().count(all[at]) > 0);
        assert(sorted.to_multiset() == all.to_multiset().remove(points.last()));
        assert(all.to_multiset() =~= sorted.to_multiset().insert(points.last()));
    } else {
        assert(in_stream_order(points) =~= points);
    }
}

/// Seek points, dropping the placeholders an encoder leaves for points it never filled in.
pub fn parse_seek_table(body: &[u8]) -> (points: Vec<SeekPoint>)
    ensures
        points@ == in_stream_order(filled_points(body@, 0)),
{
    let mut points: Vec<SeekPoint> = Vec::new();
    let ghost mut taken: Seq<SeekPoint> = Seq::empty();
    let mut index: usize = 0;
    let entries: usize = body.len() / SEEK_POINT_LEN;
    while index < entries
        invariant
            index <= entries == body@.len() / 18,
            points@ == in_stream_order(taken),
            filled_points(body@, 0) == taken + filled_points(body@, index as int),
        decreases entries - index,
    {
        assert(body.len() == body@.len());
        assert(index * 18 + 18 <= body@.len());
        let at: usize = index * SEEK_POINT_LEN;
        let sample: u64 = bytes::read_be64(body, at);
        let ghost later = filled_points(body@, index + 1);
        if sample != SEEK_POINT_PLACEHOLDER {
            let point: SeekPoint = SeekPoint { sample, offset: bytes::read_be64(body, at + 8) };
            let ghost sorted = points@;
            assert(sorted.subrange(0, sorted.len() as int) =~= sorted);
            let mut place: usize = points.len();
            while place > 0 && points[place - 1].sample > sample
                invariant
                    place <= points@.len(),
                    points@ == sorted,
                    place_for(sorted, sample) == place_for(
                        sorted.subrange(0, place as int),
                        sample,
                    ),
                decreases place,
            {
                assert(sorted.subrange(0, place as int).drop_last() =~= sorted.subrange(
                    0,
                    place - 1,
                ));
                place -= 1;
            }
            assert(place_for(sorted, sample) == place);
            points.insert(place, point);
            proof {
                let grown = taken.push(point);
                assert(grown.drop_last() =~= taken);
                assert(taken + (seq![point] + later) =~= grown + later);
                taken = grown;
            }
        }
        index += 1;
    }
    assert(taken + Seq::<SeekPoint>::empty() =~= taken);
    points
}

/// The tags after one comment field: a name in letters of either case, an equals sign, and a
/// value that is not empty. Anything else leaves them as they were.
pub open spec fn commented(field: Seq<u8>, known: Tags) -> Tags {
    let line = utf8::decode_utf8(field);
    let split = text::letter_at(line, '=', 0);
    let name = line.subrange(0, split);
    let value = line.subrange(split + 1, line.len() as int);
    if !utf8::valid_utf8(field) || split + 1 >= line.len() {
        known
    } else if text::same_letters(name, "TITLE"@) {
        Tags { title: Some(value), ..known }
    } else if text::same_letters(name, "ARTIST"@) {
        Tags { artist: Some(value), ..known }
    } else if text::same_letters(name, "ALBUM"@) {
        Tags { album: Some(value), ..known }
    } else if text::same_letters(name, "TRACKNUMBER"@) {
        Tags { track: tags::track_number(value), ..known }
    } else {
        known
    }
}

/// The tags after up to `count` length-prefixed fields from `at` on. The first that does not
/// fit ends them.
pub open spec fn comments(body: Seq<u8>, at: int, count: int, known: Tags) -> Tags
    decreases count,
{
    let end = at + 4 + bytes::le32(body, at);
    if count <= 0 || at + 4 > body.len() || end > body.len() {
        known
    } else {
        comments(body, end, count - 1, commented(body.subrange(at + 4, end), known))
    }
}

/// The fields this player displays of a Vorbis comment: a vendor name, a count, and the
/// fields. Everything in it is little-endian, which is the one place FLAC departs from
/// big-endian.
pub open spec fn comment_tags(body: Seq<u8>) -> Tags {
    let vendor_end = 4 + bytes::le32(body, 0);
    if body.len() < 4 || vendor_end + 4 > body.len() {
        tags::no_tags()
    } else {
        comments(
            body,
            vendor_end + 4,
            bytes::le32(body, vendor_end),
            tags::no_tags(),
        )
    }
}

fn read_comment(field: &[u8], tags: &mut TrackTags)
    ensures
        final(tags)@ == commented(field@, old(tags)@),
{
    let line: &str = match text::from_utf8(field) {
        Some(line) => line,
        None => {
            return;
        },
    };
    let chars: Vec<char> = text::chars_of(line);
    let split: usize = text::find_letter(&chars, '=', 0);
    if split >= chars.len() || split + 1 >= chars.len() {
        return;
    }
    let name: String = text::text_between(&chars, 0, split);
    let value: String = text::text_between(&chars, split + 1, chars.len());
    if text::eq_ignore_ascii_case(name.as_str(), "TITLE") {
        tags.title = Some(value);
    } else if text::eq_ignore_ascii_case(name.as_str(), "ARTIST") {
        tags.artist = Some(value);
    } else if text::eq_ignore_ascii_case(name.as_str(), "ALBUM") {
        tags.album = Some(value);
    } else if text::eq_ignore_ascii_case(name.as_str(), "TRACKNUMBER") {
        // A "4/12" style number counts the tracks after the slash, which is not a number.
        tags.track = tags::number_of(value.as_str());
    }
}

/// Read the fields this player displays out of a Vorbis comment.
pub fn parse_vorbis_comment(body: &[u8]) -> (tags: TrackTags)
    ensures
        tags@ == comment_tags(body@),
{
    let mut tags: TrackTags = TrackTags::default();
    let len: usize = body.len();
    if len < 4 {
        return tags;
    }
    let vendor: u32 = bytes::read_le32(body, 0);
    if vendor as usize > len - 4 || len - 4 - (vendor as usize) < 4 {
        return tags;
    }
    let mut at: usize = 4 + vendor as usize;
    let mut count: u32 = bytes::read_le32(body, at);
    at += 4;
    while count > 0
        invariant
            len == body@.len(),
            at <= len,
            comment_tags(body@) == comments(body@, at as int, count as int, tags@),
        decreases count,
    {
        if len - at < 4 {
            return tags;
        }
        let length: u32 = bytes::read_le32(body, at);
        if length as usize > len - at - 4 {
            return tags;
        }
        let end: usize = at + 4 + length as usize;
        read_comment(vstd::slice::slice_subrange(body, at + 4, end), &mut tags);
        at = end;
        count -= 1;
    }
    tags
}

/// Everything ahead of the audio: the stream description, the seek table, and the tags.
pub struct Metadata {
    pub format: PcmFormat,
    pub total_frames: u64,
    pub max_block_frames: usize,
    pub seek_points: Vec<SeekPoint>,
    pub tags: TrackTags,
    pub audio_start: u64,
}

/// The same as values.
#[verifier::ext_equal]
pub struct Preamble {
    pub format: PcmFormat,
    pub total_frames: u64,
    pub max_block_frames: usize,
    pub seek_points: Seq<SeekPoint>,
    pub tags: Tags,
    pub audio_start: int,
}

impl View for Metadata {
    type V = Preamble;

    open spec fn view(&self) -> Preamble {
        Preamble {
            format: self.format,
            total_frames: self.total_frames,
            max_block_frames: self.max_block_frames,
            seek_points: self.seek_points@,
            tags: self.tags@,
            audio_start: self.audio_start as int,
        }
    }
}

/// A block this player reads. Artwork and padding are passed over.
pub open spec fn is_wanted(kind: int, length: int) -> bool {
    (kind == BLOCK_STREAMINFO || kind == BLOCK_SEEKTABLE || kind == BLOCK_VORBIS_COMMENT) && length
        <= MAX_BLOCK_BYTES
}

/// The metadata blocks from `at` on, after blocks that gave `stream`, `points` and `names`.
pub open spec fn blocks(
    file: Seq<u8>,
    at: int,
    stream: Option<(PcmFormat, u64, usize)>,
    points: Seq<SeekPoint>,
    names: Tags,
) -> Result<Preamble, FlacError>
    decreases file.len() - at,
{
    if at < 0 || at + 4 > file.len() {
        Err(FlacError::Truncated)
    } else {
        let kind = file[at] as int % 128;
        let length = bytes::be24(file, at + 1);
        let end = at + 4 + length;
        let body = if is_wanted(kind, length) {
            file.subrange(at + 4, end)
        } else {
            Seq::empty()
        };
        if is_wanted(kind, length) && end > file.len() {
            Err(FlacError::Truncated)
        } else if kind == BLOCK_STREAMINFO && stream_info(body) is Err {
            Err(stream_info(body)->Err_0)
        } else {
            let now_stream = if kind == BLOCK_STREAMINFO {
                Some(stream_info(body)->Ok_0)
            } else {
                stream
            };
            let now_points = if kind == BLOCK_SEEKTABLE {
                in_stream_order(filled_points(body, 0))
            } else {
                points
            };
            let now_names = if kind == BLOCK_VORBIS_COMMENT {
                comment_tags(body)
            } else {
                names
            };
            if file[at] < 128 && end > file.len() {
                Err(FlacError::Truncated)
            } else if file[at] < 128 {
                blocks(file, end, now_stream, now_points, now_names)
            } else {
                match now_stream {
                    Some((format, total_frames, max_block_frames)) => Ok(
                        Preamble {
                            format,
                            total_frames,
                            max_block_frames,
                            seek_points: now_points,
                            tags: now_names,
                            audio_start: end,
                        },
                    ),
                    None => Err(FlacError::NoStreamInfo),
                }
            }
        }
    }
}

/// What stands ahead of the audio, or why the file is not FLAC this player can play.
pub open spec fn preamble(file: Seq<u8>) -> Result<Preamble, FlacError> {
    if file.len() < 4 {
        Err(FlacError::Truncated)
    } else if !bytes::mark4(file, 0, 0x66, 0x4C, 0x61, 0x43) {
        Err(FlacError::Marker)
    } else {
        blocks(file, 4, None, Seq::empty(), tags::no_tags())
    }
}

/// A stream this player can carry.
pub open spec fn stream_wf(stream: Option<(PcmFormat, u64, usize)>) -> bool {
    match stream {
        Some((format, total, block)) => {
            &&& 1 <= format.channels <= 8
            &&& 1 <= format.bits <= CARRIER_BITS
            &&& 1 <= total < 0x10_0000_0000
            &&& 1 <= block <= 0xffff
        },
        None => true,
    }
}

pub fn read_metadata(file: &[u8]) -> (out: Result<Metadata, FlacError>)
    requires
        file@.len() <= MAX_FILE_BYTES,
    ensures
        match preamble(file@) {
            Ok(found) => out matches Ok(metadata) && metadata@ == found && stream_wf(
                Some((metadata.format, metadata.total_frames, metadata.max_block_frames)),
            ) && metadata.audio_start <= MAX_FILE_BYTES + 0x100_0000,
            Err(error) => out matches Err(e) && e == error,
        },
{
    let len: u64 = file.len() as u64;
    if len < 4 {
        return Err(FlacError::Truncated);
    }
    if !bytes::is_mark4(file, 0, 0x66, 0x4C, 0x61, 0x43) {
        return Err(FlacError::Marker);
    }
    let mut stream: Option<(PcmFormat, u64, usize)> = None;
    let mut seek_points: Vec<SeekPoint> = Vec::new();
    let mut tags: TrackTags = TrackTags::default();
    let mut at: u64 = 4;
    assert(seek_points@ =~= Seq::empty());
    loop
        invariant
            len == file@.len() <= MAX_FILE_BYTES,
            4 <= at <= MAX_FILE_BYTES + 0x100_0000,
            stream_wf(stream),
            preamble(file@) == blocks(file@, at as int, stream, seek_points@, tags@),
        decreases MAX_FILE_BYTES + 0x200_0000 - at,
    {
        if at > len || len - at < 4 {
            return Err(FlacError::Truncated);
        }
        let here: usize = at as usize;
        assert(file.len() == file@.len());
        let last: bool = file[here] >= 128;
        let kind: u8 = file[here] % 128;
        let length: u32 = bytes::read_be24(file, here + 1);
        let wanted: bool = (kind == BLOCK_STREAMINFO || kind == BLOCK_SEEKTABLE || kind
            == BLOCK_VORBIS_COMMENT) && length <= MAX_BLOCK_BYTES;
        if wanted && length as u64 > len - at - 4 {
            return Err(FlacError::Truncated);
        }
        let end: u64 = at + 4 + length as u64;
        let stop: usize = if wanted {
            end as usize
        } else {
            here + 4
        };
        let body: &[u8] = vstd::slice::slice_subrange(file, here + 4, stop);
        assert(!wanted ==> body@ =~= Seq::empty());
        if kind == BLOCK_STREAMINFO {
            match parse_streaminfo(body) {
                Ok(found) => {
                    stream = Some(found);
                },
                Err(error) => {
                    return Err(error);
                },
            }
        } else if kind == BLOCK_SEEKTABLE {
            seek_points = parse_seek_table(body);
        } else if kind == BLOCK_VORBIS_COMMENT {
            tags = parse_vorbis_comment(body);
        }
        if last {
            return match stream {
                Some((format, total_frames, max_block_frames)) => Ok(
                    Metadata {
                        format,
                        total_frames,
                        max_block_frames,
                        seek_points,
                        tags,
                        audio_start: end,
                    },
                ),
                None => Err(FlacError::NoStreamInfo),
            };
        }
        if end > len {
            return Err(FlacError::Truncated);
        }
        at = end;
    }
}

/// What claxon reports when a frame does not decode.
#[verifier::external_type_specification]
#[verifier::external_body]
pub struct ExClaxonError(claxon::Error);

/// A decoded block: where it starts in the stream, and its samples, channel after channel.
pub struct FlacBlock {
    pub time: u64,
    pub duration: u32,
    pub channels: u32,
    pub samples: Vec<i32>,
}

/// The same as a value.
#[verifier::ext_equal]
pub struct BlockValue {
    pub time: u64,
    pub duration: u32,
    pub channels: u32,
    pub samples: Seq<i32>,
}

impl View for FlacBlock {
    type V = BlockValue;

    open spec fn view(&self) -> BlockValue {
        BlockValue {
            time: self.time,
            duration: self.duration,
            channels: self.channels,
            samples: self.samples@,
        }
    }
}

impl BlockValue {
    /// A block as FLAC can have one.
    pub open spec fn wf(self) -> bool {
        &&& self.time < 0x8000_0000_0000
        &&& 1 <= self.duration <= 0xffff
        &&& 1 <= self.channels <= 8
        &&& self.samples.len() == self.channels * self.duration
    }
}

/// What decoding the frame at the head of some bytes comes to.
pub enum FrameOutcome {
    Block(BlockValue),
    /// The bytes end before a frame begins.
    End,
    Fault,
}

/// What claxon makes of the frame at the head of `bytes`, and how many bytes it reads for it.
pub uninterp spec fn flac_frame(bytes: Seq<u8>) -> (FrameOutcome, int);

/// What came of decoding one frame, and how many bytes were read for it.
pub struct FrameRead {
    pub read: Result<Option<FlacBlock>, claxon::Error>,
    pub bytes: usize,
}

/// A run of this many bytes of zeros is never handed to claxon. It counts the zero bits ahead of
/// a one in 32 bits, without looking whether they fit, and adds one where they tell wasted bits:
/// on a run a byte shorter, with up to seven more bits on either side, `Bitstream::read_unary`
/// and that addition still hold the count, and on this one they may overflow.
pub const LONG_RUN: usize = 0x1fff_ffff;

/// A long run of zeros starts at `at`.
pub open spec fn run_at(bytes: Seq<u8>, at: int) -> bool {
    &&& at + LONG_RUN <= bytes.len()
    &&& forall|k: int| at <= k < at + LONG_RUN ==> #[trigger] bytes[k] == 0
}

/// Where the bytes from `at` on end, or a byte short of the end of the first long run of zeros.
pub open spec fn reach(file: Seq<u8>, at: int) -> int
    decreases file.len() - at,
{
    if at + LONG_RUN > file.len() {
        file.len() as int
    } else if run_at(file, at) {
        at + LONG_RUN - 1
    } else {
        reach(file, at + 1)
    }
}

proof fn lemma_reach(file: Seq<u8>, at: int)
    requires
        0 <= at <= file.len(),
    ensures
        at <= reach(file, at) <= file.len(),
        forall|i: int| at <= i && i + LONG_RUN <= reach(file, at) ==> !#[trigger] run_at(file, i),
    decreases file.len() - at,
{
    if at + LONG_RUN <= file.len() && !run_at(file, at) {
        lemma_reach(file, at + 1);
    }
}

/// Bytes that no long run starts at do not matter for where the reach ends.
proof fn lemma_reach_on(file: Seq<u8>, at: int, to: int)
    requires
        0 <= at <= to <= file.len(),
        forall|i: int| at <= i < to ==> !#[trigger] run_at(file, i),
    ensures
        reach(file, at) == reach(file, to),
    decreases to - at,
{
    if at < to && at + LONG_RUN <= file.len() {
        assert(!run_at(file, at));
        lemma_reach_on(file, at + 1, to);
    }
}

/// Where the bytes from `at` on end for claxon.
fn reach_of(file: &[u8], at: usize) -> (end: usize)
    requires
        at <= file@.len(),
    ensures
        end == reach(file@, at as int),
{
    let len: usize = file.len();
    let mut from: usize = at;
    loop
        invariant
            at <= from <= len == file@.len(),
            reach(file@, at as int) == reach(file@, from as int),
        decreases len - from,
    {
        if len - from < LONG_RUN {
            return len;
        }
        let mut k: usize = from + LONG_RUN;
        while k > from && file[k - 1] == 0
            invariant
                from <= k <= from + LONG_RUN <= len == file@.len(),
                forall|j: int| k <= j < from + LONG_RUN ==> #[trigger] file@[j] == 0,
            decreases k,
        {
            k -= 1;
        }
        if k == from {
            assert(run_at(file@, from as int));
            return from + LONG_RUN - 1;
        }
        proof {
            assert forall|i: int| from <= i < k implies !#[trigger] run_at(file@, i) by {
                assert(file@[k - 1] != 0);
            }
            lemma_reach_on(file@, from as int, k as int);
        }
        from = k;
    }
}

/// Calls `claxon::frame::FrameReader::read_next_or_eof` on a reader over `bytes`, and asks the
/// reader how far it got. The claim is that the outcome depends on the bytes alone; that a
/// block has one to 65535 samples for each of one to eight channels, all of them in its
/// buffer, and a sample number under 2^47, which is the largest frame number times the
/// largest block; and that a block or a fault takes at least one byte, for claxon reads the two
/// that a frame begins with before anything else can fail, and nothing takes more than there
/// are. What the samples are is not stated.
#[verifier::external_body]
fn decode_frame(bytes: &[u8]) -> (out: FrameRead)
    requires
        forall|i: int| 0 <= i ==> !#[trigger] run_at(bytes@, i),
    ensures
        out.bytes == flac_frame(bytes@).1,
        out.bytes <= bytes@.len(),
        match flac_frame(bytes@).0 {
            FrameOutcome::Block(block) => out.read matches Ok(Some(found)) && found@ == block
                && found@.wf() && 1 <= out.bytes,
            FrameOutcome::End => out.read matches Ok(None),
            FrameOutcome::Fault => out.read is Err && 1 <= out.bytes,
        },
{
    let mut frames = claxon::frame::FrameReader::new(std::io::Cursor::new(bytes));
    let read = frames.read_next_or_eof(Vec::new()).map(
        |found| found.map(
            |block| FlacBlock {
                time: block.time(),
                duration: block.duration(),
                channels: block.channels(),
                samples: block.into_buffer(),
            },
        ),
    );
    FrameRead { read, bytes: frames.into_inner().position() as usize }
}

/// The bytes that a frame at `at` is read from.
pub open spec fn window(file: Seq<u8>, at: int) -> Seq<u8> {
    file.subrange(at, reach(file, at))
}

/// What reading on from a place in a file comes to.
pub enum Step {
    Block { block: BlockValue, next: int },
    End,
    Fault { error: ReadError, next: int },
}

/// What reading on from `at` comes to. A block with fewer channels than the stream declares
/// is no part of it.
pub open spec fn step(file: Seq<u8>, format: PcmFormat, at: int) -> Step {
    let (outcome, taken) = flac_frame(window(file, at));
    if at >= file.len() {
        Step::End
    } else {
        match outcome {
            FrameOutcome::Block(block) => if block.channels >= format.channels {
                Step::Block { block, next: at + taken }
            } else {
                Step::Fault {
                    error: ReadError::FlacChannels { channels: block.channels },
                    next: at + taken,
                }
            },
            FrameOutcome::End => Step::End,
            FrameOutcome::Fault => Step::Fault { error: ReadError::Flac, next: at + taken },
        }
    }
}

/// The samples of a block as carrier words, channel after channel within each frame.
pub open spec fn interleaved(format: PcmFormat, block: BlockValue) -> Seq<i32> {
    Seq::new(
        (block.duration * format.channels) as nat,
        |i: int|
            format.carrier_word(
                block.samples[(i % format.channels as int) * block.duration + i
                    / format.channels as int],
            ),
    )
}

/// The carrier words that the blocks from `at` on hold, up to the first that does not decode.
pub open spec fn stream_from(file: Seq<u8>, format: PcmFormat, at: int) -> Seq<i32>
    decreases file.len() - at,
{
    match step(file, format, at) {
        Step::Block { block, next } => if at < next <= file.len() {
            interleaved(format, block) + stream_from(file, format, next)
        } else {
            Seq::empty()
        },
        _ => Seq::empty(),
    }
}

/// Why reading the blocks from `at` on fails behind what they hold, or none where they end.
pub open spec fn failing_from(file: Seq<u8>, format: PcmFormat, at: int) -> Option<ReadError>
    decreases file.len() - at,
{
    match step(file, format, at) {
        Step::Block { next, .. } => if at < next <= file.len() {
            failing_from(file, format, next)
        } else {
            None
        },
        Step::End => None,
        Step::Fault { error, .. } => Some(error),
    }
}

/// What the blocks from `at` on hold behind the first that does not decode, stretch by stretch:
/// reading goes on behind each such block.
pub open spec fn later_from(file: Seq<u8>, format: PcmFormat, at: int) -> Seq<Stretch<Seq<i32>>>
    decreases file.len() - at,
{
    match step(file, format, at) {
        Step::Block { next, .. } => if at < next <= file.len() {
            later_from(file, format, next)
        } else {
            Seq::empty()
        },
        Step::End => Seq::empty(),
        Step::Fault { next, .. } => if at < next <= file.len() {
            seq![
                Stretch {
                    audio: stream_from(file, format, next),
                    fault: failing_from(file, format, next),
                },
            ] + later_from(file, format, next)
        } else {
            Seq::empty()
        },
    }
}

/// Where a reader stands in a file.
#[verifier::ext_equal]
pub struct Standing {
    /// Where the next block starts.
    pub at: int,
    /// What was read of the block before that and is not handed out yet.
    pub held: Seq<i32>,
    /// The frame that `held` starts at, or the next block where nothing is held.
    pub position: int,
    /// The reader was sent here, so that the next block says itself which frame it starts at.
    pub jumped: bool,
}

/// A reader that has just been opened.
pub open spec fn at_start(file: Seq<u8>, preamble: Preamble) -> Standing {
    Standing {
        at: inside(file, preamble.audio_start),
        held: Seq::empty(),
        position: 0,
        jumped: true,
    }
}

/// Frames that are held.
pub open spec fn frames_held(format: PcmFormat, now: Standing) -> int {
    now.held.len() as int / format.channels as int
}

/// What is to come for a reader that stands at `now`.
pub open spec fn course_from(
    file: Seq<u8>,
    format: PcmFormat,
    now: Standing,
) -> Seq<Stretch<Seq<i32>>> {
    reader::course(
        now.held + stream_from(file, format, now.at),
        failing_from(file, format, now.at),
        later_from(file, format, now.at),
    )
}

/// Where a read leaves a reader: past what is held, or past the next block.
pub open spec fn read_on(file: Seq<u8>, format: PcmFormat, now: Standing) -> Standing {
    if now.held.len() > 0 {
        Standing {
            held: Seq::empty(),
            position: now.position + frames_held(format, now),
            ..now
        }
    } else {
        match step(file, format, now.at) {
            Step::Block { block, next } => Standing {
                at: next,
                held: Seq::empty(),
                position: (if now.jumped {
                    block.time as int
                } else {
                    now.position
                }) + block.duration,
                jumped: false,
            },
            Step::End => now,
            Step::Fault { next, .. } => Standing { at: next, ..now },
        }
    }
}

/// Where the block that holds frame `target` starts, reading block by block from `at`, which
/// is frame `position`: the place behind the last block where none holds it, or why a block on
/// the way does not decode. The block that follows a jump says itself where it starts.
pub open spec fn block_for(
    file: Seq<u8>,
    format: PcmFormat,
    at: int,
    position: int,
    jumped: bool,
    target: int,
) -> Result<u64, ReadError>
    decreases file.len() - at,
{
    match step(file, format, at) {
        Step::Block { block, next } => {
            let here = if jumped {
                block.time as int
            } else {
                position
            };
            if here + block.duration > target || !(at < next <= file.len()) {
                Ok(here as u64)
            } else {
                block_for(file, format, next, here + block.duration, false, target)
            }
        },
        Step::End => Ok(position as u64),
        Step::Fault { error, .. } => Err(error),
    }
}

/// Where reading for that block leaves a reader: with the block held, behind the last block where
/// none holds the frame, or behind the one that does not decode.
pub open spec fn settled(
    file: Seq<u8>,
    format: PcmFormat,
    at: int,
    position: int,
    jumped: bool,
    target: int,
) -> Standing
    decreases file.len() - at,
{
    match step(file, format, at) {
        Step::Block { block, next } => {
            let here = if jumped {
                block.time as int
            } else {
                position
            };
            if here + block.duration > target || !(at < next <= file.len()) {
                Standing {
                    at: next,
                    held: interleaved(format, block),
                    position: here,
                    jumped: false,
                }
            } else {
                settled(file, format, next, here + block.duration, false, target)
            }
        },
        Step::End => Standing { at, held: Seq::empty(), position, jumped },
        Step::Fault { next, .. } => Standing { at: next, held: Seq::empty(), position, jumped },
    }
}

/// What reading on for frame `target` comes to, from where a reader stands.
pub open spec fn reading_for(
    file: Seq<u8>,
    format: PcmFormat,
    now: Standing,
    target: int,
) -> (Result<u64, ReadError>, Standing) {
    let behind = now.position + frames_held(format, now);
    if now.held.len() > 0 && behind > target {
        (Ok(now.position as u64), now)
    } else {
        (
            block_for(file, format, now.at, behind, now.jumped, target),
            settled(file, format, now.at, behind, now.jumped, target),
        )
    }
}

/// What a seek to frame `place` comes to, and where it leaves a reader. The latest seek point at
/// or before the frame is where reading on starts, where that is nearer than reading on from
/// where the reader stands.
pub open spec fn sought_from(
    file: Seq<u8>,
    preamble: Preamble,
    now: Standing,
    place: int,
) -> (Result<u64, ReadError>, Standing) {
    let target = reader::inside(place, preamble.total_frames as int) as u64;
    let point = last_at_or_before(preamble.seek_points, target);
    let from = if point.sample > now.position || target < now.position {
        Standing {
            at: inside(file, preamble.audio_start + point.offset),
            held: Seq::empty(),
            position: point.sample as int,
            jumped: true,
        }
    } else {
        now
    };
    reading_for(file, preamble.format, from, target as int)
}

/// A block that does not decode costs the stream that block and no other: reading reports it and
/// goes on with what is to come behind it.
pub proof fn a_block_that_does_not_decode_costs_only_itself(
    file: Seq<u8>,
    format: PcmFormat,
    now: Standing,
)
    requires
        now.held.len() == 0,
    ensures
        step(file, format, now.at) matches Step::Fault { error, next } ==> now.at < next
            <= file.len() ==> course_from(file, format, now) == seq![
            Stretch { audio: Seq::<i32>::empty(), fault: Some(error) },
        ] + course_from(file, format, read_on(file, format, now)),
{
    let next = read_on(file, format, now);
    if step(file, format, now.at) is Fault {
        assert(now.held + stream_from(file, format, now.at) =~= Seq::<i32>::empty());
    }
    assert(next.held + stream_from(file, format, next.at) =~= stream_from(file, format, next.at));
}

/// Every block from `at` to the end decodes.
pub open spec fn sound_from(file: Seq<u8>, format: PcmFormat, at: int) -> bool
    decreases file.len() - at,
{
    match step(file, format, at) {
        Step::Block { next, .. } => at < next <= file.len() && sound_from(file, format, next),
        Step::End => true,
        Step::Fault { .. } => false,
    }
}

/// No block from `at` on, up to the first that does not decode, holds more than `most` frames.
pub open spec fn within(file: Seq<u8>, format: PcmFormat, at: int, most: int) -> bool
    decreases file.len() - at,
{
    match step(file, format, at) {
        Step::Block { block, next } => at < next <= file.len() ==> block.duration <= most && within(
            file,
            format,
            next,
            most,
        ),
        _ => true,
    }
}

/// Reading `frames` frames from `from` on, block by block, leads to `to`.
pub open spec fn leads(
    file: Seq<u8>,
    format: PcmFormat,
    from: int,
    to: int,
    frames: int,
) -> bool
    decreases file.len() - from,
{
    if from == to {
        frames == 0
    } else {
        match step(file, format, from) {
            Step::Block { block, next } => from < next <= file.len() && leads(
                file,
                format,
                next,
                to,
                frames - block.duration,
            ),
            _ => false,
        }
    }
}

/// The block at `at`, if there is one, says that it starts at `frame`.
pub open spec fn says(file: Seq<u8>, format: PcmFormat, at: int, frame: int) -> bool {
    step(file, format, at) matches Step::Block { block, .. } ==> block.time == frame
}

/// A place in the file, or its end where the place is past it.
pub open spec fn inside(file: Seq<u8>, at: int) -> int {
    if at < file.len() {
        at
    } else {
        file.len() as int
    }
}

/// A file whose blocks all decode, whose first block says that it is the first, and whose
/// seek points lead to the blocks they name, which say so too: what an encoder writes.
pub open spec fn numbered_truly(file: Seq<u8>, preamble: Preamble) -> bool {
    let start = inside(file, preamble.audio_start);
    &&& sound_from(file, preamble.format, start)
    &&& says(file, preamble.format, start, 0)
    &&& forall|i: int|
        0 <= i < preamble.seek_points.len() ==> is_true_point(
            file,
            preamble,
            #[trigger] preamble.seek_points[i],
        )
}

/// A seek point that leads to the block it names.
pub open spec fn is_true_point(file: Seq<u8>, preamble: Preamble, point: SeekPoint) -> bool {
    let start = inside(file, preamble.audio_start);
    let at = inside(file, preamble.audio_start + point.offset);
    &&& leads(file, preamble.format, start, at, point.sample as int)
    &&& says(file, preamble.format, at, point.sample as int)
}

/// A FLAC file as a recording.
pub open spec fn recording_of(file: Seq<u8>, preamble: Preamble) -> PcmRecording {
    PcmRecording {
        kind: "FLAC"@,
        format: preamble.format,
        declared: preamble.total_frames as int,
        tags: preamble.tags,
        chunk: preamble.max_block_frames as int,
        bounded: numbered_truly(file, preamble) && within(
            file,
            preamble.format,
            inside(file, preamble.audio_start),
            preamble.max_block_frames as int,
        ),
        exact: numbered_truly(file, preamble),
        audio: stream_from(file, preamble.format, inside(file, preamble.audio_start)),
        ending: failing_from(file, preamble.format, inside(file, preamble.audio_start)),
        later: later_from(file, preamble.format, inside(file, preamble.audio_start)),
    }
}

proof fn lemma_whole_frames(file: Seq<u8>, format: PcmFormat, at: int)
    requires
        1 <= format.channels,
    ensures
        stream_from(file, format, at).len() as int % format.channels as int == 0,
    decreases file.len() - at,
{
    vstd::arithmetic::div_mod::lemma_small_mod(0, format.channels as nat);
    match step(file, format, at) {
        Step::Block { block, next } => {
            if at < next <= file.len() {
                let later = stream_from(file, format, next);
                let channels = format.channels as int;
                lemma_whole_frames(file, format, next);
                vstd::arithmetic::div_mod::lemma_mod_multiples_vanish(
                    block.duration as int,
                    later.len() as int,
                    channels,
                );
                assert(block.duration * channels >= 0) by (nonlinear_arith)
                    requires
                        block.duration >= 0,
                        channels >= 0,
                ;
                assert(block.duration * channels == channels * block.duration) by (nonlinear_arith);
                assert(stream_from(file, format, at).len() == channels * block.duration
                    + later.len());
            }
        },
        _ => {},
    }
}

proof fn lemma_leads(file: Seq<u8>, format: PcmFormat, from: int, to: int, frames: int)
    requires
        1 <= format.channels,
        leads(file, format, from, to, frames),
    ensures
        0 <= frames,
        0 <= frames * format.channels <= stream_from(file, format, from).len(),
        stream_from(file, format, from).skip(frames * format.channels) == stream_from(
            file,
            format,
            to,
        ),
        sound_from(file, format, from) ==> sound_from(file, format, to),
        forall|most: int| #[trigger]
            within(file, format, from, most) ==> within(file, format, to, most),
    decreases file.len() - from,
{
    let whole = stream_from(file, format, from);
    if from == to {
        assert(whole.skip(0) =~= whole);
    } else {
        match step(file, format, from) {
            Step::Block { block, next } => {
                let left = frames - block.duration;
                lemma_leads(file, format, next, to, left);
                let later = stream_from(file, format, next);
                let channels = format.channels as int;
                assert(frames * channels == block.duration * channels + left * channels && 0
                    <= block.duration * channels) by (nonlinear_arith)
                    requires
                        frames == block.duration + left,
                        0 <= block.duration,
                        0 <= channels,
                ;
                assert(whole.skip(frames * channels) =~= later.skip(left * channels));
                assert forall|most: int| #[trigger] within(file, format, from, most) implies within(
                    file,
                    format,
                    to,
                    most,
                ) by {
                    assert(within(file, format, next, most));
                }
            },
            _ => {},
        }
    }
}

proof fn lemma_leads_on(file: Seq<u8>, format: PcmFormat, from: int, to: int, frames: int)
    requires
        leads(file, format, from, to, frames),
        step(file, format, to) matches Step::Block { block, next } && to < next <= file.len(),
    ensures
        step(file, format, to) matches Step::Block { block, next } ==> leads(
            file,
            format,
            from,
            next,
            frames + block.duration,
        ),
    decreases file.len() - from,
{
    if from != to {
        match step(file, format, from) {
            Step::Block { block, next } => {
                lemma_leads_on(file, format, next, to, frames - block.duration);
                lemma_leads_behind(file, format, next, to, frames - block.duration);
            },
            _ => {},
        }
    } else {
        match step(file, format, to) {
            Step::Block { block, next } => {
                assert(leads(file, format, next, next, 0));
            },
            _ => {},
        }
    }
}

proof fn lemma_leads_behind(file: Seq<u8>, format: PcmFormat, from: int, to: int, frames: int)
    requires
        leads(file, format, from, to, frames),
    ensures
        from <= to,
    decreases file.len() - from,
{
    if from != to {
        match step(file, format, from) {
            Step::Block { block, next } => {
                lemma_leads_behind(file, format, next, to, frames - block.duration);
            },
            _ => {},
        }
    }
}

/// The samples of a decoded block as carrier words. Claxon decodes a block channel by channel;
/// the queue wants the frames interleaved.
pub fn interleave(format: PcmFormat, block: &FlacBlock) -> (words: Vec<i32>)
    requires
        1 <= format.channels <= block.channels,
        format.bits <= CARRIER_BITS,
        block@.wf(),
    ensures
        words@ == interleaved(format, block@),
{
    let channels: usize = format.channels as usize;
    let duration: usize = block.duration as usize;
    let mut words: Vec<i32> = Vec::new();
    let mut index: usize = 0;
    let ghost whole = interleaved(format, block@);
    assert(0 <= duration * channels) by (nonlinear_arith)
        requires
            0 <= duration,
            0 <= channels,
    ;
    while index < duration
        invariant
            1 <= channels == format.channels,
            format.bits <= CARRIER_BITS,
            channels <= block.channels,
            block@.wf(),
            duration == block.duration,
            index <= duration,
            whole == interleaved(format, block@),
            words@.len() == index * channels,
            words@ == whole.subrange(0, index * channels),
            whole.len() == duration * channels,
        decreases duration - index,
    {
        let mut channel: usize = 0;
        proof {
            rows::lemma_row_fits(index as int, duration as int, channels as int);
        }
        while channel < channels
            invariant
                1 <= channels == format.channels,
                format.bits <= CARRIER_BITS,
                channels <= block.channels,
                block@.wf(),
                duration == block.duration,
                index < duration,
                channel <= channels,
                whole == interleaved(format, block@),
                whole.len() == duration * channels,
                0 <= index * channels,
                index * channels + channels <= duration * channels,
                words@.len() == index * channels + channel,
                words@ == whole.subrange(0, index * channels + channel),
            decreases channels - channel,
        {
            proof {
                rows::lemma_slot(index as int, channel as int, channels as int);
                rows::lemma_row_fits(channel as int, block.channels as int, duration as int);
            }
            assert(block.samples.len() == block.samples@.len());
            words.push(format.widen(block.samples[channel * duration + index]));
            channel += 1;
            assert(words@ =~= whole.subrange(0, index * channels + channel));
        }
        assert((index + 1) * channels == index * channels + channels) by (nonlinear_arith);
        index += 1;
    }
    assert(words@ =~= whole);
    words
}

/// Reader for FLAC.
pub struct FlacReader {
    file: Vec<u8>,
    format: PcmFormat,
    total_frames: u64,
    seek_points: Vec<SeekPoint>,
    tags: TrackTags,
    audio_start: u64,
    /// Where the next frame starts.
    offset: usize,
    /// Interleaved carrier samples decoded but not yet handed out.
    pending: Vec<i32>,
    /// Frame index the first sample of `pending` sits at, and so where the next
    /// [`FlacReader::read`] starts.
    position: u64,
    /// Set while the decoder has been pointed somewhere new and the next frame header is
    /// the only thing that says where that is.
    resynced: bool,
    max_block_frames: usize,
}

impl FlacReader {
    /// The file it reads.
    pub closed spec fn bytes(&self) -> Seq<u8> {
        self.file@
    }

    /// Where it stands in the file.
    pub closed spec fn standing(&self) -> Standing {
        Standing {
            at: self.offset as int,
            held: self.pending@,
            position: self.position as int,
            jumped: self.resynced,
        }
    }

    /// What the file says of itself ahead of the audio.
    pub closed spec fn preamble(&self) -> Preamble {
        Preamble {
            format: self.format,
            total_frames: self.total_frames,
            max_block_frames: self.max_block_frames,
            seek_points: self.seek_points@,
            tags: self.tags@,
            audio_start: self.audio_start as int,
        }
    }

    /// Why the next read fails, if it does.
    pub closed spec fn fault(&self) -> Option<ReadError> {
        if self.pending@.len() > 0 {
            None
        } else {
            match step(self.file@, self.format, self.offset as int) {
                Step::Fault { error, .. } => Some(error),
                _ => None,
            }
        }
    }

    /// Frames of the block that was read last and not handed out yet.
    pub closed spec fn held(&self) -> int {
        self.pending@.len() as int / self.format.channels as int
    }

    spec fn same_file(&self, other: &FlacReader) -> bool {
        &&& self.file == other.file
        &&& self.format == other.format
        &&& self.total_frames == other.total_frames
        &&& self.seek_points == other.seek_points
        &&& self.tags == other.tags
        &&& self.audio_start == other.audio_start
        &&& self.max_block_frames == other.max_block_frames
    }

    /// The parts fit together.
    spec fn fits(&self) -> bool {
        &&& self.file@.len() <= MAX_FILE_BYTES
        &&& self.audio_start <= MAX_FILE_BYTES + 0x100_0000
        &&& stream_wf(Some((self.format, self.total_frames, self.max_block_frames)))
        &&& self.offset <= self.file@.len()
        &&& self.pending@.len() == self.held() * self.format.channels
        &&& self.resynced ==> self.pending@.len() == 0
        &&& self.position + self.held() <= 0x8000_0000_0000 + 0xffff * self.offset
    }

    /// On a file numbered truly, the next block and what was read of it are where the frames
    /// counted say.
    spec fn on_count(&self) -> bool {
        let start = inside(self.file@, self.audio_start as int);
        let audio = stream_from(self.file@, self.format, start);
        numbered_truly(self.file@, self.preamble()) ==> {
            &&& leads(
                self.file@,
                self.format,
                start,
                self.offset as int,
                self.position + self.held(),
            )
            &&& 0 <= self.position * self.format.channels <= audio.len()
            &&& self.upcoming() == audio.skip(self.position * self.format.channels)
            &&& self.resynced ==> says(
                self.file@,
                self.format,
                self.offset as int,
                self.position as int,
            )
            &&& self.recording().bounded ==> self.held() <= self.max_block_frames
        }
    }

    proof fn lemma_ready(&self)
        requires
            self.fits(),
            self.on_count(),
        ensures
            reader::pcm_ready(self.wf(), self.recording(), self.position(), self.upcoming()),
            self.recording().exact ==> self.fault() is None,
    {
        let channels = self.format.channels as int;
        let start = inside(self.file@, self.audio_start as int);
        lemma_whole_frames(self.file@, self.format, self.offset as int);
        vstd::arithmetic::div_mod::lemma_mod_multiples_vanish(
            self.held(),
            stream_from(self.file@, self.format, self.offset as int).len() as int,
            channels,
        );
        assert(self.held() * channels == channels * self.held()) by (nonlinear_arith);
        if self.recording().exact {
            let audio = self.recording().audio;
            lemma_leads(
                self.file@,
                self.format,
                start,
                self.offset as int,
                self.position + self.held(),
            );
            assert(reader::clipped(audio, self.position * channels, audio.len() as int)
                =~= audio.skip(self.position * channels));
        }
    }

    /// Open a FLAC file.
    pub fn open(file: Vec<u8>) -> (out: Result<Self, FlacError>)
        ensures
            file@.len() > MAX_FILE_BYTES ==> out == Err::<Self, FlacError>(FlacError::TooLarge),
            file@.len() <= MAX_FILE_BYTES ==> match preamble(file@) {
                Ok(found) => {
                    &&& out matches Ok(source)
                    &&& reader::pcm_ready(
                        source.wf(),
                        source.recording(),
                        source.position(),
                        source.upcoming(),
                    )
                    &&& source.recording() == recording_of(file@, found)
                    &&& source.upcoming() == source.recording().audio
                    &&& source.ending() == source.recording().ending
                    &&& source.later() == source.recording().later
                    &&& source.bytes() == file@
                    &&& source.preamble() == found
                    &&& source.standing() == at_start(file@, found)
                },
                Err(error) => out == Err::<Self, FlacError>(error),
            },
    {
        if file.len() as u64 > MAX_FILE_BYTES {
            return Err(FlacError::TooLarge);
        }
        let metadata: Metadata = match read_metadata(file.as_slice()) {
            Ok(metadata) => metadata,
            Err(error) => {
                return Err(error);
            },
        };
        let len: usize = file.len();
        let offset: usize = if metadata.audio_start < len as u64 {
            metadata.audio_start as usize
        } else {
            len
        };
        let reader: FlacReader = FlacReader {
            file,
            format: metadata.format,
            total_frames: metadata.total_frames,
            seek_points: metadata.seek_points,
            tags: metadata.tags,
            audio_start: metadata.audio_start,
            offset,
            pending: Vec::new(),
            position: 0,
            resynced: true,
            max_block_frames: metadata.max_block_frames,
        };
        proof {
            let audio = reader.recording().audio;
            assert(reader.held() == 0) by {
                vstd::arithmetic::div_mod::lemma_div_basics(reader.format.channels as int);
            }
            assert(reader.upcoming() =~= audio);
            assert(audio.skip(0) =~= audio);
            reader.lemma_ready();
        }
        Ok(reader)
    }

    /// Decode the next block into `pending`, or report the end of the stream.
    fn fill(&mut self) -> (out: Result<bool, ReadError>)
        requires
            old(self).fits(),
            old(self).pending@.len() == 0,
        ensures
            final(self).fits(),
            final(self).same_file(old(self)),
            match step(old(self).file@, old(self).format, old(self).offset as int) {
                Step::Block { block, next } => {
                    &&& out == Ok::<bool, ReadError>(true)
                    &&& block.duration >= 1
                    &&& old(self).offset < next <= old(self).file@.len()
                    &&& final(self).offset == next
                    &&& final(self).pending@ == interleaved(old(self).format, block)
                    &&& final(self).held() == block.duration
                    &&& final(self).position == if old(self).resynced {
                        block.time
                    } else {
                        old(self).position
                    }
                    &&& !final(self).resynced
                },
                Step::End => out == Ok::<bool, ReadError>(false) && *final(self) == *old(self),
                Step::Fault { error, next } => {
                    &&& out == Err::<bool, ReadError>(error)
                    &&& old(self).offset < next <= old(self).file@.len()
                    &&& final(self).offset == next
                    &&& final(self).pending@.len() == 0
                    &&& final(self).position == old(self).position
                    &&& final(self).resynced == old(self).resynced
                },
            },
    {
        let len: usize = self.file.len();
        if self.offset >= len {
            return Ok(false);
        }
        let end: usize = reach_of(self.file.as_slice(), self.offset);
        proof {
            let from = self.offset as int;
            let bytes = window(self.file@, from);
            lemma_reach(self.file@, from);
            assert forall|i: int| 0 <= i implies !#[trigger] run_at(bytes, i) by {
                if run_at(bytes, i) {
                    assert forall|k: int| from + i <= k < from + i + LONG_RUN implies
                        #[trigger] self.file@[k] == 0 by {
                        assert(self.file@[k] == bytes[k - from]);
                    }
                    assert(run_at(self.file@, from + i));
                }
            }
        }
        let found: FrameRead = decode_frame(
            vstd::slice::slice_subrange(self.file.as_slice(), self.offset, end),
        );
        let block: FlacBlock = match found.read {
            Ok(Some(block)) => block,
            Ok(None) => {
                return Ok(false);
            },
            Err(_) => {
                self.offset = self.offset + found.bytes;
                return Err(ReadError::Flac);
            },
        };
        let ghost value = block@;
        self.offset = self.offset + found.bytes;
        if block.channels < self.format.channels as u32 {
            return Err(ReadError::FlacChannels { channels: block.channels });
        }
        // Only a frame that follows a jump is asked where it sits. Reading on from one that
        // does is cheaper and, at the end of a stream whose blocks are a fixed size, more
        // accurate: a final short block reports a sample number scaled by its own length
        // rather than by the length the rest of the stream used.
        if self.resynced {
            self.position = block.time;
            self.resynced = false;
        }
        self.pending = interleave(self.format, &block);
        proof {
            let channels = self.format.channels as int;
            assert(value.duration * channels >= 0) by (nonlinear_arith)
                requires
                    value.duration >= 0,
                    channels >= 0,
            ;
            vstd::arithmetic::div_mod::lemma_div_by_multiple(value.duration as int, channels);
            assert(self.held() == value.duration);
        }
        Ok(true)
    }

    /// On a file numbered truly, reading a block ahead keeps the count.
    proof fn lemma_filled(&self, after: &FlacReader)
        requires
            self.fits(),
            self.on_count(),
            self.pending@.len() == 0,
            after.fits(),
            after.same_file(self),
            step(self.file@, self.format, self.offset as int) matches Step::Block { block, next }
                && self.offset < next <= self.file@.len() && after.offset == next && after.pending@
                == interleaved(self.format, block) && after.held() == block.duration
                && after.position == (if self.resynced {
                block.time
            } else {
                self.position
            }) && !after.resynced,
        ensures
            after.on_count(),
            after.upcoming() == self.upcoming(),
            after.ending() == self.ending(),
            after.later() == self.later(),
            after.position() == self.position(),
            self.recording().exact ==> after.position == self.position,
    {
        let later = stream_from(self.file@, self.format, after.offset as int);
        assert(self.upcoming() =~= interleaved(self.format, step(
            self.file@,
            self.format,
            self.offset as int,
        )->block) + later);
        assert(self.held() == 0) by {
            vstd::arithmetic::div_mod::lemma_div_basics(self.format.channels as int);
        }
        if self.recording().exact {
            lemma_leads(
                self.file@,
                self.format,
                inside(self.file@, self.audio_start as int),
                self.offset as int,
                self.position as int,
            );
            lemma_leads_on(
                self.file@,
                self.format,
                inside(self.file@, self.audio_start as int),
                self.offset as int,
                self.position as int,
            );
        }
    }

    /// On a file numbered truly, letting go of the block that was read ahead keeps the count.
    proof fn lemma_passed(&self, after: &FlacReader)
        requires
            self.fits(),
            self.on_count(),
            !self.resynced,
            after.fits(),
            after.same_file(self),
            after.offset == self.offset,
            after.pending@.len() == 0,
            after.position == self.position + self.held(),
            !after.resynced,
        ensures
            after.on_count(),
            self.upcoming() == self.pending@ + after.upcoming(),
    {
        let channels = self.format.channels as int;
        let later = stream_from(self.file@, self.format, self.offset as int);
        assert(after.upcoming() =~= later);
        assert(after.held() == 0) by {
            vstd::arithmetic::div_mod::lemma_div_basics(channels);
        }
        if self.recording().exact {
            let start = inside(self.file@, self.audio_start as int);
            let audio = stream_from(self.file@, self.format, start);
            lemma_leads(self.file@, self.format, start, self.offset as int, after.position as int);
        }
    }

    /// The latest seek point at or before `frame`, or the start of the audio when the file
    /// carries no seek table or none of its points reach back that far.
    fn landing(&self, frame: u64) -> (out: (usize, u64))
        requires
            self.fits(),
        ensures
            out.1 <= frame,
            ({
                let points = self.seek_points@;
                let point = last_at_or_before(points, frame);
                &&& out.0 == inside(self.file@, self.audio_start + point.offset)
                &&& out.1 == point.sample
                &&& points.contains(point) || point == (SeekPoint { sample: 0, offset: 0 })
            }),
    {
        let len: usize = self.file.len();
        let ghost points = self.seek_points@;
        let mut i: usize = self.seek_points.len();
        assert(points.subrange(0, points.len() as int) =~= points);
        while i > 0
            invariant
                self.fits(),
                len == self.file@.len(),
                points == self.seek_points@,
                i <= points.len(),
                last_at_or_before(points, frame) == last_at_or_before(
                    points.subrange(0, i as int),
                    frame,
                ),
            decreases i,
        {
            let point: SeekPoint = self.seek_points[i - 1];
            assert(points.subrange(0, i as int).drop_last() =~= points.subrange(0, i - 1));
            if point.sample <= frame {
                let left: u64 = if self.audio_start < len as u64 {
                    len as u64 - self.audio_start
                } else {
                    0
                };
                let offset: usize = if point.offset < left {
                    (self.audio_start + point.offset) as usize
                } else {
                    len
                };
                assert(points.contains(point));
                return (offset, point.sample);
            }
            i -= 1;
        }
        let offset: usize = if self.audio_start < len as u64 {
            self.audio_start as usize
        } else {
            len
        };
        (offset, 0)
    }
}

/// The last of `points` at or before `frame`, or the start of the audio.
pub open spec fn last_at_or_before(points: Seq<SeekPoint>, frame: u64) -> SeekPoint
    decreases points.len(),
{
    if points.len() == 0 {
        SeekPoint { sample: 0, offset: 0 }
    } else if points.last().sample <= frame {
        points.last()
    } else {
        last_at_or_before(points.drop_last(), frame)
    }
}

impl PcmSource for FlacReader {
    closed spec fn wf(&self) -> bool {
        self.fits() && self.on_count()
    }

    closed spec fn recording(&self) -> PcmRecording {
        recording_of(self.file@, self.preamble())
    }

    open spec fn position(&self) -> int {
        let now = self.standing();
        match step(self.bytes(), self.preamble().format, now.at) {
            Step::Block { block, .. } if now.jumped => block.time as int,
            _ => now.position,
        }
    }

    open spec fn upcoming(&self) -> Seq<i32> {
        self.standing().held + stream_from(
            self.bytes(),
            self.preamble().format,
            self.standing().at,
        )
    }

    open spec fn ending(&self) -> Option<ReadError> {
        failing_from(self.bytes(), self.preamble().format, self.standing().at)
    }

    open spec fn later(&self) -> Seq<Stretch<Seq<i32>>> {
        later_from(self.bytes(), self.preamble().format, self.standing().at)
    }

    open spec fn sought(&self, place: int) -> Result<u64, ReadError> {
        sought_from(self.bytes(), self.preamble(), self.standing(), place).0
    }

    open spec fn aimed(&self, place: int) -> Seq<Stretch<Seq<i32>>> {
        course_from(
            self.bytes(),
            self.preamble().format,
            sought_from(self.bytes(), self.preamble(), self.standing(), place).1,
        )
    }

    /// The block at hand holds the frame, or there is no more to read.
    open spec fn stands_for(&self, frame: int) -> bool {
        &&& self.position() <= frame
        &&& self.position() + self.held() > frame || self.upcoming().len() == 0
    }

    fn container(&self) -> (name: &'static str) {
        "FLAC"
    }

    fn format(&self) -> (format: PcmFormat) {
        self.format
    }

    fn total_frames(&self) -> (total: u64) {
        self.total_frames
    }

    fn tags(&self) -> (tags: &TrackTags) {
        &self.tags
    }

    fn chunk_frames(&self) -> (frames: usize) {
        self.max_block_frames
    }

    /// One block, or what a seek left of one.
    #[verifier::rlimit(50)]
    fn read(&mut self, out: &mut Vec<i32>) -> (read: Result<usize, ReadError>)
        ensures
            match old(self).fault() {
                Some(error) => read == Err::<usize, ReadError>(error),
                None => read is Ok,
            },
            old(self).recording().exact ==> read is Ok,
            final(self).bytes() == old(self).bytes(),
            final(self).preamble() == old(self).preamble(),
            final(self).standing() == read_on(
                old(self).bytes(),
                old(self).preamble().format,
                old(self).standing(),
            ),
    {
        proof {
            self.lemma_ready();
        }
        let ghost before = *self;
        if self.pending.len() == 0 {
            match self.fill() {
                Ok(true) => {
                    proof {
                        before.lemma_filled(self);
                    }
                },
                Ok(false) => {
                    assert(self.upcoming() =~= Seq::<i32>::empty());
                    assert(out@ + Seq::<i32>::empty() =~= out@);
                    return Ok(0);
                },
                Err(error) => {
                    proof {
                        self.lemma_ready();
                        assert(self.standing() =~= read_on(
                            before.file@,
                            before.format,
                            before.standing(),
                        ));
                        assert(self.upcoming() =~= stream_from(
                            self.file@,
                            self.format,
                            self.offset as int,
                        ));
                    }
                    return Err(error);
                },
            }
        }
        let ghost filled = *self;
        let frames: usize = self.pending.len() / self.format.channels as usize;
        let ghost given = self.pending@;
        proof {
            assert(frames > 0) by (nonlinear_arith)
                requires
                    given.len() == frames * self.format.channels,
                    given.len() > 0,
            ;
        }
        let ghost held = out@;
        out.append(&mut self.pending);
        self.position = self.position + frames as u64;
        proof {
            assert(self.held() == 0) by {
                vstd::arithmetic::div_mod::lemma_div_basics(self.format.channels as int);
            }
            filled.lemma_passed(self);
            self.lemma_ready();
            assert(out@ == held + given);
            assert(held + given + self.upcoming() =~= held + (given + self.upcoming()));
            assert(self.standing() =~= read_on(before.file@, before.format, before.standing()));
        }
        Ok(frames)
    }

    /// FLAC is addressable at block boundaries, so a seek lands on the block holding the
    /// target. Where the file carries a seek table the jump is one read; where it does not,
    /// the blocks between here and there are decoded and dropped, so only a seek backwards
    /// through a tableless file costs the whole distance.
    fn seek(&mut self, frame: u64) -> (out: Result<u64, ReadError>)
        ensures
            final(self).bytes() == old(self).bytes(),
            final(self).preamble() == old(self).preamble(),
            final(self).standing() == sought_from(
                old(self).bytes(),
                old(self).preamble(),
                old(self).standing(),
                frame as int,
            ).1,
    {
        let target: u64 = if frame < self.total_frames {
            frame
        } else {
            self.total_frames
        };
        let (offset, sample): (usize, u64) = self.landing(target);
        proof {
            self.lemma_ready();
        }
        if sample > self.position || target < self.position {
            self.offset = offset;
            self.pending.clear();
            self.resynced = true;
            self.position = sample;
            proof {
                let channels = self.format.channels as int;
                assert(self.held() == 0) by {
                    vstd::arithmetic::div_mod::lemma_div_basics(channels);
                }
                if numbered_truly(self.file@, self.preamble()) {
                    let start = inside(self.file@, self.audio_start as int);
                    let point = last_at_or_before(self.seek_points@, target);
                    if self.seek_points@.contains(point) {
                        assert(is_true_point(self.file@, self.preamble(), point));
                    } else {
                        assert(leads(self.file@, self.format, start, start, 0));
                    }
                    assert(leads(self.file@, self.format, start, offset as int, sample as int));
                    lemma_leads(self.file@, self.format, start, offset as int, sample as int);
                    assert(self.upcoming() =~= stream_from(
                        self.file@,
                        self.format,
                        offset as int,
                    ));
                }
            }
        }
        let ghost goal = sought_from(
            self.file@,
            self.preamble(),
            old(self).standing(),
            frame as int,
        );
        assert(self.standing().held =~= Seq::empty() || self.standing() == old(self).standing());
        assert(reading_for(self.file@, self.format, self.standing(), target as int) == goal);
        loop
            invariant_except_break
                self.same_file(old(self)),
                self.fits(),
                self.on_count(),
                target <= self.total_frames,
                reading_for(self.file@, self.format, self.standing(), target as int) == goal,
                old(self).recording().exact ==> self.position <= target,
            invariant
                self.same_file(old(self)),
                goal == sought_from(
                    old(self).file@,
                    old(self).preamble(),
                    old(self).standing(),
                    frame as int,
                ),
            ensures
                goal.0 == Ok::<u64, ReadError>(self.position),
                goal.1 == self.standing(),
                self.fits(),
                self.on_count(),
                !self.resynced || self.upcoming().len() == 0,
                self.position() == self.position,
                old(self).recording().exact ==> self.position <= target,
                self.position + self.held() > target || self.upcoming().len() == 0,
            decreases self.file@.len() - self.offset + self.held(),
        {
            let ghost before = *self;
            if self.pending.len() == 0 {
                proof {
                    self.lemma_ready();
                }
                match self.fill() {
                    Ok(true) => {
                        proof {
                            before.lemma_filled(self);
                        }
                    },
                    Ok(false) => {
                        assert(self.upcoming() =~= Seq::<i32>::empty());
                        assert(self.standing() =~= goal.1);
                        break;
                    },
                    Err(error) => {
                        proof {
                            self.lemma_ready();
                            assert(self.standing() =~= goal.1);
                        }
                        return Err(error);
                    },
                }
            }
            let ghost filled = *self;
            let frames: u64 = (self.pending.len() / self.format.channels as usize) as u64;
            if self.position + frames > target {
                break;
            }
            proof {
                assert(frames > 0) by (nonlinear_arith)
                    requires
                        self.pending@.len() == frames * self.format.channels,
                        self.pending@.len() > 0,
                ;
            }
            self.position = self.position + frames;
            self.pending.clear();
            proof {
                assert(self.held() == 0) by {
                    vstd::arithmetic::div_mod::lemma_div_basics(self.format.channels as int);
                }
                filled.lemma_passed(self);
            }
        }
        proof {
            self.lemma_ready();
        }
        Ok(self.position)
    }
}

/// Each sample of a block comes out once, at its frame and its channel: the block has them channel
/// by channel, and playing takes them frame by frame.
pub proof fn a_block_plays_frame_by_frame(
    format: PcmFormat,
    block: BlockValue,
    frame: int,
    channel: int,
)
    requires
        0 <= channel < format.channels,
        0 <= frame < block.duration,
    ensures
        interleaved(format, block).len() == block.duration * format.channels,
        interleaved(format, block)[frame * format.channels + channel] == format.carrier_word(
            block.samples[channel * block.duration + frame],
        ),
{
    crate::rows::lemma_slot(frame, channel, format.channels as int);
    crate::rows::lemma_row_fits(frame, block.duration as int, format.channels as int);
}

/// A seek goes by the point that is nearest before the frame: of points in order, none that is
/// not past the frame comes later.
pub proof fn a_seek_goes_by_the_nearest_point_before(
    points: Seq<SeekPoint>,
    frame: u64,
    other: int,
)
    requires
        forall|i: int, j: int| 0 <= i <= j < points.len() ==> points[i].sample <= points[j].sample,
        0 <= other < points.len(),
        points[other].sample <= frame,
    ensures
        points[other].sample <= last_at_or_before(points, frame).sample <= frame,
        points.contains(last_at_or_before(points, frame)),
    decreases points.len(),
{
    let head = points.drop_last();
    if points.last().sample <= frame {
        assert(points[points.len() - 1] == points.last());
    } else {
        assert(other < head.len());
        assert forall|i: int, j: int| 0 <= i <= j < head.len() implies head[i].sample
            <= head[j].sample by {
            assert(head[i] == points[i] && head[j] == points[j]);
        }
        a_seek_goes_by_the_nearest_point_before(head, frame, other);
        let found = last_at_or_before(points, frame);
        assert(points[head.index_of(found)] == found);
    }
}

/// Where no point stands at or before the frame, a seek goes by the start of the audio.
pub proof fn without_a_point_a_seek_goes_by_the_start(points: Seq<SeekPoint>, frame: u64)
    requires
        forall|i: int| 0 <= i < points.len() ==> (#[trigger] points[i]).sample > frame,
    ensures
        last_at_or_before(points, frame) == (SeekPoint { sample: 0, offset: 0 }),
    decreases points.len(),
{
    if points.len() > 0 {
        let head = points.drop_last();
        assert(points[points.len() - 1].sample > frame);
        assert forall|i: int| 0 <= i < head.len() implies (#[trigger] head[i]).sample > frame by {
            assert(head[i] == points[i]);
        }
        without_a_point_a_seek_goes_by_the_start(head, frame);
    }
}

/// Every block ends further on in the file than it starts.
pub open spec fn blocks_lead_on(file: Seq<u8>, format: PcmFormat) -> bool {
    forall|at: int|
        #[trigger] step(file, format, at) matches Step::Block { block, next } ==> at < next
            <= file.len()
}

/// Reading on for a frame never goes past it, and stops with the block that holds it, whole, if
/// any does.
pub proof fn reading_on_stops_at_the_block_that_holds_the_frame(
    file: Seq<u8>,
    format: PcmFormat,
    at: int,
    position: int,
    target: int,
)
    requires
        0 <= position <= target <= u64::MAX,
        format.channels > 0,
    ensures
        ({
            let landed = block_for(file, format, at, position, false, target);
            let left = settled(file, format, at, position, false, target);
            &&& landed matches Ok(place) ==> place == left.position && position <= place <= target
            &&& blocks_lead_on(file, format) && landed is Ok && left.held.len() > 0 ==> target
                < left.position + frames_held(format, left)
        }),
    decreases file.len() - at,
{
    match step(file, format, at) {
        Step::Block { block, next } => {
            if !(position + block.duration > target || !(at < next <= file.len())) {
                reading_on_stops_at_the_block_that_holds_the_frame(
                    file,
                    format,
                    next,
                    position + block.duration,
                    target,
                );
            } else {
                let left = settled(file, format, at, position, false, target);
                vstd::arithmetic::div_mod::lemma_div_multiples_vanish(
                    block.duration as int,
                    format.channels as int,
                );
                assert(block.duration * format.channels == format.channels * block.duration)
                    by (nonlinear_arith);
            }
        },
        _ => {},
    }
}

/// A reader stands as many frames further on as it has handed out, whether they were held or come
/// of the next block; and once it was sent somewhere, where the block it finds there says.
pub proof fn a_reader_counts_what_it_hands_out(
    file: Seq<u8>,
    format: PcmFormat,
    now: Standing,
    frames: int,
)
    requires
        format.channels > 0,
        now.held.len() == frames * format.channels,
    ensures
        ({
            let then = read_on(file, format, now);
            &&& then.held.len() == 0
            &&& now.held.len() > 0 ==> then.position == now.position + frames && then.at == now.at
            &&& now.held.len() == 0 ==> match step(file, format, now.at) {
                Step::Block { block, next } => {
                    &&& then.at == next
                    &&& then.position - (if now.jumped {
                        block.time as int
                    } else {
                        now.position
                    }) == interleaved(format, block).len() as int / format.channels as int
                    &&& !then.jumped
                },
                Step::End => then == now,
                Step::Fault { next, .. } => then.at == next && then.position == now.position
                    && then.jumped == now.jumped,
            }
        }),
{
    vstd::arithmetic::div_mod::lemma_div_multiples_vanish(frames, format.channels as int);
    assert(frames * format.channels == format.channels * frames) by (nonlinear_arith);
    if now.held.len() == 0 {
        if let Step::Block { block, next } = step(file, format, now.at) {
            vstd::arithmetic::div_mod::lemma_div_multiples_vanish(
                block.duration as int,
                format.channels as int,
            );
            assert(block.duration * format.channels == format.channels * block.duration)
                by (nonlinear_arith);
        }
    }
}

/// A frame is read from all that is left of a file, unless a long run of zeros stands in it: then
/// up to a byte short of the end of the first.
pub proof fn a_frame_is_read_from_all_that_is_left(file: Seq<u8>, at: int, run: int)
    requires
        0 <= at <= run <= file.len(),
        forall|i: int| at <= i < run ==> !#[trigger] run_at(file, i),
        run == file.len() || run_at(file, run),
    ensures
        window(file, at) == (if run == file.len() {
            file.subrange(at, file.len() as int)
        } else {
            file.subrange(at, run + 0x1fff_ffff - 1)
        }),
    decreases run - at,
{
    lemma_reach_on(file, at, run);
    if run < file.len() {
        assert(run_at(file, run));
    }
}

/// A seek never reads on from past the frame it is aimed at: from where the reader stands only where
/// that is not past the frame and no point is nearer, and else from the nearest point before the
/// frame, or the start. A frame past the end is taken for the end.
pub proof fn a_seek_never_reads_on_from_past_the_frame(
    file: Seq<u8>,
    preamble: Preamble,
    now: Standing,
    place: int,
)
    requires
        0 <= place,
    ensures
        ({
            let target = if place < preamble.total_frames {
                place
            } else {
                preamble.total_frames as int
            };
            let point = last_at_or_before(preamble.seek_points, target as u64);
            let sent = Standing {
                at: inside(file, preamble.audio_start + point.offset),
                held: Seq::empty(),
                position: point.sample as int,
                jumped: true,
            };
            let sought = sought_from(file, preamble, now, place);
            &&& now.position > target ==> sought == reading_for(
                file,
                preamble.format,
                sent,
                target,
            )
            &&& now.position < point.sample ==> sought == reading_for(
                file,
                preamble.format,
                sent,
                target,
            )
            &&& point.sample <= now.position <= target ==> sought == reading_for(
                file,
                preamble.format,
                now,
                target,
            )
        }),
{
}

} // verus!
