//! Sony's DSF container.

use crate::bytes;
use crate::dsd::{BitOrder, DsdFormat, DsdRate};
use crate::reader;
use crate::reader::tags;
use crate::reader::tags::{read_id3v2, TrackTags};
use crate::reader::{DsdRecording, DsdSource, ReadError, Stretch};
use crate::rows;
use crate::text;
use vstd::arithmetic::div_mod::{
    lemma_fundamental_div_mod, lemma_fundamental_div_mod_converse, lemma_mod_bound,
};
use vstd::prelude::*;

verus! {

/// Bytes ahead of the audio: the DSD chunk, the format chunk and the header of the data chunk.
pub const DATA_START: usize = 92;

/// Why a file is not one this player reads.
#[derive(Debug, Clone, Copy, PartialEq, Eq, Structural)]
pub enum DsfError {
    Truncated,
    DsdChunk,
    DsdChunkSize,
    FmtChunk,
    FmtChunkSize,
    Version,
    FormatId { id: u32 },
    Channels { channels: u32 },
    BitsPerSample { field: u32 },
    BlockSize { bytes: u32 },
    DataChunk,
    NoAudio,
}

impl DsfError {
    /// What went wrong, in a line.
    pub open spec fn line(self) -> Seq<char> {
        match self {
            DsfError::Truncated => "truncated DSF header"@,
            DsfError::DsdChunk => "missing DSD chunk"@,
            DsfError::DsdChunkSize => "bad DSD chunk size"@,
            DsfError::FmtChunk => "missing fmt chunk"@,
            DsfError::FmtChunkSize => "bad fmt chunk size"@,
            DsfError::Version => "unsupported DSF format version"@,
            DsfError::FormatId { id } => "unsupported DSF format id "@ + text::decimal(id as nat),
            DsfError::Channels { channels } => "unsupported channel count "@ + text::decimal(
                channels as nat,
            ),
            DsfError::BitsPerSample { field } => "unsupported bits-per-sample field "@
                + text::decimal(field as nat),
            DsfError::BlockSize { bytes } => "bad block size "@ + text::decimal(bytes as nat),
            DsfError::DataChunk => "missing data chunk"@,
            DsfError::NoAudio => "no audio in data chunk"@,
        }
    }

    /// What went wrong, in a line.
    pub fn message(self) -> (line: String)
        ensures
            line@ == self.line(),
    {
        match self {
            DsfError::Truncated => text::owned("truncated DSF header"),
            DsfError::DsdChunk => text::owned("missing DSD chunk"),
            DsfError::DsdChunkSize => text::owned("bad DSD chunk size"),
            DsfError::FmtChunk => text::owned("missing fmt chunk"),
            DsfError::FmtChunkSize => text::owned("bad fmt chunk size"),
            DsfError::Version => text::owned("unsupported DSF format version"),
            DsfError::FormatId { id } => text::with_number("unsupported DSF format id ", id as u64),
            DsfError::Channels { channels } => text::with_number(
                "unsupported channel count ",
                channels as u64,
            ),
            DsfError::BitsPerSample { field } => text::with_number(
                "unsupported bits-per-sample field ",
                field as u64,
            ),
            DsfError::BlockSize { bytes } => text::with_number("bad block size ", bytes as u64),
            DsfError::DataChunk => text::owned("missing data chunk"),
            DsfError::NoAudio => text::owned("no audio in data chunk"),
        }
    }
}

/// What the header of a DSF file says.
pub struct Layout {
    pub format: DsdFormat,
    pub bit_order: BitOrder,
    /// Bytes of one channel's block.
    pub block: int,
    /// DSD bytes per channel, without the padding of the last block.
    pub declared: int,
    /// Where the tag is, or zero.
    pub metadata: int,
}

/// The number of audio bytes per channel a header declares: what the sample count gives, but
/// no more than the data chunk holds.
pub open spec fn declared_bytes(samples: int, data_chunk: int, channels: int) -> int {
    let body = if data_chunk < 12 {
        0
    } else {
        data_chunk - 12
    };
    if samples / 8 < body / channels {
        samples / 8
    } else {
        body / channels
    }
}

/// The header of a DSF file, or why it is refused. The fields are looked at in file order.
pub open spec fn layout(file: Seq<u8>) -> Result<Layout, DsfError> {
    let channels = bytes::le32(file, 52);
    let field = bytes::le32(file, 60);
    let block = bytes::le32(file, 72);
    let declared = declared_bytes(bytes::le64(file, 64), bytes::le64(file, 84), channels);
    if file.len() < 28 {
        Err(DsfError::Truncated)
    } else if !bytes::mark4(file, 0, 0x44, 0x53, 0x44, 0x20) {
        Err(DsfError::DsdChunk)
    } else if bytes::le64(file, 4) != 28 {
        Err(DsfError::DsdChunkSize)
    } else if file.len() < 80 {
        Err(DsfError::Truncated)
    } else if !bytes::mark4(file, 28, 0x66, 0x6D, 0x74, 0x20) {
        Err(DsfError::FmtChunk)
    } else if bytes::le64(file, 32) != 52 {
        Err(DsfError::FmtChunkSize)
    } else if bytes::le32(file, 40) != 1 {
        Err(DsfError::Version)
    } else if bytes::le32(file, 44) != 0 {
        Err(DsfError::FormatId { id: bytes::le32(file, 44) as u32 })
    } else if !(1 <= channels <= 6) {
        Err(DsfError::Channels { channels: channels as u32 })
    } else if field != 1 && field != 8 {
        Err(DsfError::BitsPerSample { field: field as u32 })
    } else if block == 0 || block % 2 != 0 {
        Err(DsfError::BlockSize { bytes: block as u32 })
    } else if file.len() < DATA_START {
        Err(DsfError::Truncated)
    } else if !bytes::mark4(file, 80, 0x64, 0x61, 0x74, 0x61) {
        Err(DsfError::DataChunk)
    } else if declared == 0 {
        Err(DsfError::NoAudio)
    } else {
        Ok(
            Layout {
                format: DsdFormat {
                    rate: DsdRate(bytes::le32(file, 56) as u32),
                    channels: channels as u16,
                },
                bit_order: if field == 1 {
                    BitOrder::LsbFirst
                } else {
                    BitOrder::MsbFirst
                },
                block,
                declared,
                metadata: bytes::le64(file, 20),
            },
        )
    }
}

/// Bytes per channel that `held` bytes of blocks give, one channel's block after another: only
/// what every channel has.
pub open spec fn readable_bytes(held: int, block: int, channels: int) -> int {
    let stride = block * channels;
    let over = held % stride - (channels - 1) * block;
    held / stride * block + (if over > 0 {
        over
    } else {
        0
    })
}

impl Layout {
    /// Bytes per channel that a file of `len` bytes gives.
    pub open spec fn length(self, len: int) -> int {
        let readable = readable_bytes(len - DATA_START, self.block, self.format.channels as int);
        if readable < self.declared {
            readable
        } else {
            self.declared
        }
    }

    /// Where byte `index` of channel `channel` is in the file.
    pub open spec fn place(self, channel: int, index: int) -> int {
        DATA_START + index / self.block * (self.block * self.format.channels) + channel * self.block
            + index % self.block
    }

    /// The recording a file with this header holds: each byte from its place, with the
    /// earliest DSD bit moved to bit 7.
    pub open spec fn recording(self, file: Seq<u8>) -> DsdRecording {
        DsdRecording {
            kind: "DSF"@,
            format: self.format,
            declared: self.declared,
            tags: if self.metadata == 0 {
                tags::no_tags()
            } else {
                tags::id3_tags(file, self.metadata)
            },
            chunk: self.block,
            step: self.block,
            exact: true,
            audio: Seq::new(
                self.format.channels as nat,
                |c: int|
                    Seq::new(
                        self.length(file.len() as int) as nat,
                        |i: int| self.bit_order.normalized(file[self.place(c, i)]),
                    ),
            ),
            ending: None,
            later: Seq::empty(),
        }
    }
}

/// What one block starting at byte `block * index` of each channel still gives.
proof fn lemma_block(held: int, block: int, channels: int, index: int)
    requires
        0 <= held,
        0 < block,
        1 <= channels,
        0 <= index,
    ensures
        ({
            let stride = block * channels;
            let rest = held - index * stride;
            let over = rest - (channels - 1) * block;
            let given = readable_bytes(held, block, channels) - index * block;
            &&& rest >= stride ==> given >= block
            &&& 0 <= rest < stride ==> given == (if over > 0 {
                over
            } else {
                0
            })
            &&& rest < 0 ==> given <= 0
        }),
        0 <= readable_bytes(held, block, channels),
{
    let stride = block * channels;
    assert(0 < stride) by (nonlinear_arith)
        requires
            0 < block,
            1 <= channels,
            stride == block * channels,
    ;
    assert((channels - 1) * block + block == stride) by (nonlinear_arith)
        requires
            stride == block * channels,
    ;
    assert(0 <= (channels - 1) * block) by (nonlinear_arith)
        requires
            0 < block,
            1 <= channels,
    ;
    let full = held / stride;
    let left = held % stride;
    lemma_fundamental_div_mod(held, stride);
    lemma_mod_bound(held, stride);
    assert(stride * full == full * stride) by (nonlinear_arith);
    assert(0 <= full) by (nonlinear_arith)
        requires
            0 <= held,
            held == full * stride + left,
            0 <= left < stride,
    ;
    assert(0 <= full * block) by (nonlinear_arith)
        requires
            0 <= full,
            0 < block,
    ;
    let rest = held - index * stride;
    if rest >= stride {
        assert(full >= index + 1) by (nonlinear_arith)
            requires
                held == full * stride + left,
                held - index * stride >= stride,
                0 <= left < stride,
        ;
        assert(full * block >= index * block + block) by (nonlinear_arith)
            requires
                full >= index + 1,
                0 < block,
        ;
    } else if rest >= 0 {
        assert(full == index) by (nonlinear_arith)
            requires
                held == full * stride + left,
                0 <= held - index * stride < stride,
                0 <= left < stride,
        ;
    } else {
        assert(full + 1 <= index) by (nonlinear_arith)
            requires
                held == full * stride + left,
                held - index * stride < 0,
                0 <= left < stride,
        ;
        assert(full * block + block <= index * block) by (nonlinear_arith)
            requires
                full + 1 <= index,
                0 < block,
        ;
    }
}

/// Reader for Sony's DSF container: fixed-size per-channel blocks, one channel after another.
pub struct DsfReader {
    file: Vec<u8>,
    format: DsdFormat,
    bit_order: BitOrder,
    block_bytes: usize,
    audio_bytes_per_channel: u64,
    /// Bytes per channel that the file holds, of those it declares.
    readable: u64,
    emitted: u64,
    tags: TrackTags,
}

impl DsfReader {
    spec fn layout(&self) -> Layout {
        Layout {
            format: self.format,
            bit_order: self.bit_order,
            block: self.block_bytes as int,
            declared: self.audio_bytes_per_channel as int,
            metadata: bytes::le64(self.file@, 20),
        }
    }

    /// Read a file's header, and stand at the start of its audio.
    #[verifier::rlimit(50)]
    pub fn new(file: Vec<u8>) -> (out: Result<Self, DsfError>)
        ensures
            match layout(file@) {
                Ok(layout) => {
                    &&& out matches Ok(reader)
                    &&& reader::ready(
                        reader.wf(),
                        reader.recording(),
                        reader.position(),
                        reader.upcoming(),
                    )
                    &&& reader.recording() == layout.recording(file@)
                    &&& reader.position() == 0
                },
                Err(error) => out == Err::<Self, DsfError>(error),
            },
    {
        let head: &[u8] = file.as_slice();
        if head.len() < 28 {
            return Err(DsfError::Truncated);
        }
        if !bytes::is_mark4(head, 0, 0x44, 0x53, 0x44, 0x20) {
            return Err(DsfError::DsdChunk);
        }
        if bytes::read_le64(head, 4) != 28 {
            return Err(DsfError::DsdChunkSize);
        }
        if head.len() < 80 {
            return Err(DsfError::Truncated);
        }
        if !bytes::is_mark4(head, 28, 0x66, 0x6D, 0x74, 0x20) {
            return Err(DsfError::FmtChunk);
        }
        if bytes::read_le64(head, 32) != 52 {
            return Err(DsfError::FmtChunkSize);
        }
        if bytes::read_le32(head, 40) != 1 {
            return Err(DsfError::Version);
        }
        let id: u32 = bytes::read_le32(head, 44);
        if id != 0 {
            return Err(DsfError::FormatId { id });
        }
        let channels: u32 = bytes::read_le32(head, 52);
        if channels < 1 || channels > 6 {
            return Err(DsfError::Channels { channels });
        }
        let rate: u32 = bytes::read_le32(head, 56);
        let bit_order: BitOrder = match bytes::read_le32(head, 60) {
            1 => BitOrder::LsbFirst,
            8 => BitOrder::MsbFirst,
            other => {
                return Err(DsfError::BitsPerSample { field: other });
            },
        };
        let samples: u64 = bytes::read_le64(head, 64);
        let block: u32 = bytes::read_le32(head, 72);
        if block == 0 || block % 2 != 0 {
            return Err(DsfError::BlockSize { bytes: block });
        }
        if head.len() < DATA_START {
            return Err(DsfError::Truncated);
        }
        if !bytes::is_mark4(head, 80, 0x64, 0x61, 0x74, 0x61) {
            return Err(DsfError::DataChunk);
        }
        let chunk: u64 = bytes::read_le64(head, 84);
        let body: u64 = if chunk < 12 {
            0
        } else {
            chunk - 12
        };
        let share: u64 = body / channels as u64;
        let audio_bytes_per_channel: u64 = if samples / 8 < share {
            samples / 8
        } else {
            share
        };
        if audio_bytes_per_channel == 0 {
            return Err(DsfError::NoAudio);
        }
        // The DSD chunk points at an ID3v2 tag past the audio, or at nothing when the file
        // carries none.
        let metadata: u64 = bytes::read_le64(head, 20);
        let tags: TrackTags = if metadata == 0 {
            TrackTags::default()
        } else {
            read_id3v2(head, metadata)
        };
        let held: u64 = (file.len() - DATA_START) as u64;
        assert(0 < block * channels <= 0x6_0000_0000 && 0 <= (channels - 1) * block <= 0x6_0000_0000)
            by (nonlinear_arith)
            requires
                0 < block <= 0xffff_ffff,
                1 <= channels <= 6,
        ;
        let stride: u64 = block as u64 * channels as u64;
        let before_last: u64 = (channels - 1) as u64 * block as u64;
        proof {
            lemma_block(held as int, block as int, channels as int, 0);
            lemma_fundamental_div_mod(held as int, stride as int);
            lemma_mod_bound(held as int, stride as int);
            assert(held / stride * block <= held) by (nonlinear_arith)
                requires
                    held == stride * (held / stride) + held % stride,
                    0 <= held % stride,
                    0 <= held / stride,
                    stride == block * channels,
                    1 <= channels,
                    0 < block,
            ;
            assert(held / stride * block + held % stride <= held) by (nonlinear_arith)
                requires
                    held == stride * (held / stride) + held % stride,
                    0 <= held % stride,
                    0 <= held / stride,
                    stride == block * channels,
                    1 <= channels,
                    0 < block,
            ;
        }
        let whole: u64 = held / stride * block as u64;
        let left: u64 = held % stride;
        let partial: u64 = if left > before_last {
            left - before_last
        } else {
            0
        };
        let in_file: u64 = whole + partial;
        let readable: u64 = if in_file < audio_bytes_per_channel {
            in_file
        } else {
            audio_bytes_per_channel
        };
        let format: DsdFormat = DsdFormat { rate: DsdRate(rate), channels: channels as u16 };
        let reader: DsfReader = DsfReader {
            file,
            format,
            bit_order,
            block_bytes: block as usize,
            audio_bytes_per_channel,
            readable,
            emitted: 0,
            tags,
        };
        Ok(reader)
    }
}

impl DsdSource for DsfReader {
    closed spec fn wf(&self) -> bool {
        &&& self.file@.len() >= DATA_START
        &&& 1 <= self.format.channels <= 6
        &&& 0 < self.block_bytes <= u32::MAX
        &&& self.audio_bytes_per_channel <= u64::MAX / 8
        &&& self.readable == self.layout().length(self.file@.len() as int)
        &&& self.tags@ == self.layout().recording(self.file@).tags
        &&& self.emitted <= self.audio_bytes_per_channel
        &&& self.emitted < self.readable ==> self.emitted as int % self.block_bytes as int == 0
    }

    closed spec fn recording(&self) -> DsdRecording {
        self.layout().recording(self.file@)
    }

    closed spec fn position(&self) -> int {
        self.emitted as int
    }

    closed spec fn upcoming(&self) -> Seq<Seq<u8>> {
        reader::rest(self.recording().audio, self.position())
    }

    open spec fn ending(&self) -> Option<ReadError> {
        None
    }

    open spec fn later(&self) -> Seq<Stretch<Seq<Seq<u8>>>> {
        Seq::empty()
    }

    open spec fn aimed(&self, place: int) -> Seq<Stretch<Seq<Seq<u8>>>> {
        reader::course(
            reader::rest(self.recording().audio, self.sought(place)->Ok_0 as int),
            None,
            Seq::empty(),
        )
    }

    open spec fn sought(&self, place: int) -> Result<u64, ReadError> {
        Ok(
            (reader::inside(place, self.recording().declared) / self.recording().step
                * self.recording().step) as u64,
        )
    }

    fn container(&self) -> (name: &'static str) {
        "DSF"
    }

    fn format(&self) -> (format: DsdFormat) {
        self.format
    }

    fn total_bytes_per_channel(&self) -> (total: u64) {
        self.audio_bytes_per_channel
    }

    fn chunk_bytes(&self) -> (bytes: usize) {
        self.block_bytes
    }

    fn tags(&self) -> (tags: &TrackTags) {
        &self.tags
    }

    /// One block of every channel, or what is left of one.
    fn read(&mut self, planes: &mut [Box<[u8]>]) -> (out: Result<usize, ReadError>)
        ensures
            out is Ok,
    {
        if self.emitted >= self.readable {
            proof {
                let whole = self.recording().audio;
                assert forall|c: int| 0 <= c < whole.len() implies #[trigger] self.upcoming()[c]
                    == Seq::<u8>::empty() by {
                    assert(whole[c].len() == self.readable);
                    assert(self.upcoming()[c] =~= Seq::empty());
                }
                assert(self.upcoming() =~= reader::no_bytes(self.format.channels as int));
            }
            return Ok(0);
        }
        let ghost layout = self.layout();
        let len: usize = self.file.len();
        let channels: usize = self.format.channels as usize;
        let block: usize = self.block_bytes;
        let left: u64 = self.readable - self.emitted;
        let count: usize = if left < block as u64 {
            left as usize
        } else {
            block
        };
        let index: u64 = self.emitted / block as u64;
        let ghost stride = block * channels;
        let ghost held = len - DATA_START;
        proof {
            lemma_fundamental_div_mod(self.emitted as int, block as int);
            assert(index * block == self.emitted) by (nonlinear_arith)
                requires
                    self.emitted == block * index + self.emitted as int % block as int,
                    self.emitted as int % block as int == 0,
            ;
            lemma_block(held, block as int, channels as int, index as int);
            assert(0 < stride && (channels - 1) * block + block == stride && 0 <= index * stride)
                by (nonlinear_arith)
                requires
                    0 < block,
                    1 <= channels,
                    0 <= index,
                    stride == block * channels,
            ;
            assert(index * stride + (channels - 1) * block + count <= held);
            assert(index * block * channels == index * stride) by (nonlinear_arith)
                requires
                    stride == block * channels,
            ;
            assert(index <= index * block <= index * block * channels) by (nonlinear_arith)
                requires
                    0 <= index,
                    0 < block,
                    1 <= channels,
            ;
        }
        let start: usize = DATA_START + index as usize * block * channels;
        let ghost audio = layout.recording(self.file@).audio;
        let ghost from = self.emitted as int;
        let mut c: usize = 0;
        while c < channels
            invariant
                c <= channels <= planes@.len(),
                1 <= channels == layout.format.channels,
                layout == self.layout(),
                len == self.file@.len(),
                0 < count <= block == layout.block,
                stride == block * channels,
                start == DATA_START + index * stride,
                from == index * block,
                from + count <= layout.length(len as int),
                audio == layout.recording(self.file@).audio,
                start + (channels - 1) * block + count <= len,
                reader::same_lengths(old(planes)@, planes@),
                reader::planes_hold(old(planes)@, layout.recording(self.file@)),
                forall|k: int, i: int|
                    0 <= k < c && 0 <= i < count ==> #[trigger] planes@[k]@[i] == audio[k][from + i],
            decreases channels - c,
        {
            assert(c * block + block <= (channels - 1) * block + block) by (nonlinear_arith)
                requires
                    0 <= c < channels,
                    0 < block,
            ;
            assert(0 <= c * block) by (nonlinear_arith)
                requires
                    0 <= c,
                    0 < block,
            ;
            let first: usize = start + c * block;
            let mut i: usize = 0;
            while i < count
                invariant
                    i <= count,
                    c < channels <= planes@.len(),
                    1 <= channels == layout.format.channels,
                    layout == self.layout(),
                    len == self.file@.len(),
                    0 < count <= block == layout.block,
                    stride == block * channels,
                    start == DATA_START + index * stride,
                    first == start + c * block,
                    first + count <= len,
                    from == index * block,
                    from + count <= layout.length(len as int),
                    audio == layout.recording(self.file@).audio,
                    reader::same_lengths(old(planes)@, planes@),
                    planes@[c as int]@.len() >= count,
                    forall|k: int, j: int|
                        0 <= k < c && 0 <= j < count ==> #[trigger] planes@[k]@[j] == audio[k][from
                            + j],
                    forall|j: int|
                        0 <= j < i ==> #[trigger] planes@[c as int]@[j] == audio[c as int][from + j],
                decreases count - i,
            {
                let byte: u8 = self.bit_order.normalize_byte(self.file[first + i]);
                proof {
                    rows::lemma_slot(index as int, i as int, block as int);
                    assert(layout.place(c as int, from + i) == first + i);
                }
                planes[c][i] = byte;
                i += 1;
            }
            c += 1;
        }
        self.emitted = self.emitted + count as u64;
        proof {
            reader::lemma_rest(audio, channels as int, from, count as int);
        }
        proof {
            if self.emitted < self.readable {
                assert((index + 1) * block == index * block + block) by (nonlinear_arith);
                lemma_fundamental_div_mod_converse(
                    self.emitted as int,
                    block as int,
                    index + 1,
                    0,
                );
            }
        }
        Ok(count)
    }

    /// DSF stores whole blocks, one channel after another, so a position is only addressable
    /// at a block boundary.
    fn seek(&mut self, bytes_per_channel: u64) -> (out: Result<u64, ReadError>)
        ensures
            out == Ok::<u64, ReadError>(
                ((if bytes_per_channel < old(self).recording().declared {
                    bytes_per_channel as int
                } else {
                    old(self).recording().declared
                }) / old(self).recording().chunk * old(self).recording().chunk) as u64,
            ),
    {
        let target: u64 = if bytes_per_channel < self.audio_bytes_per_channel {
            bytes_per_channel
        } else {
            self.audio_bytes_per_channel
        };
        let block_bytes: u64 = self.block_bytes as u64;
        proof {
            let blocks = target as int / block_bytes as int;
            lemma_fundamental_div_mod(target as int, block_bytes as int);
            lemma_mod_bound(target as int, block_bytes as int);
            assert(block_bytes * blocks == blocks * block_bytes) by (nonlinear_arith);
            vstd::arithmetic::div_mod::lemma_mod_multiples_basic(blocks, block_bytes as int);
            assert(0 <= blocks * block_bytes) by (nonlinear_arith)
                requires
                    0 <= blocks,
                    0 < block_bytes,
            ;
        }
        self.emitted = target / block_bytes * block_bytes;
        Ok(self.emitted)
    }
}

/// Where each field of a header stands: DSD and its 28 bytes, where the tag is, fmt and its 52,
/// the version, that the sound is not compressed, the channels, the rate, which end of a byte
/// comes first, the samples of a channel, the bytes of a block, and data with its own size.
pub open spec fn headed(
    file: Seq<u8>,
    tag: nat,
    channels: nat,
    rate: u32,
    lowest_first: bool,
    samples: nat,
    block: nat,
    data: nat,
) -> bool {
    &&& bytes::stands_at(file, 0, seq![0x44u8, 0x53, 0x44, 0x20])
    &&& bytes::stands_at(file, 4, bytes::low_first(28, 8))
    &&& bytes::stands_at(file, 20, bytes::low_first(tag, 8))
    &&& bytes::stands_at(file, 28, seq![0x66u8, 0x6D, 0x74, 0x20])
    &&& bytes::stands_at(file, 32, bytes::low_first(52, 8))
    &&& bytes::stands_at(file, 40, bytes::low_first(1, 4))
    &&& bytes::stands_at(file, 44, bytes::low_first(0, 4))
    &&& bytes::stands_at(file, 52, bytes::low_first(channels, 4))
    &&& bytes::stands_at(file, 56, bytes::low_first(rate as nat, 4))
    &&& bytes::stands_at(
        file,
        60,
        bytes::low_first(
            if lowest_first {
                1
            } else {
                8
            },
            4,
        ),
    )
    &&& bytes::stands_at(file, 64, bytes::low_first(samples, 8))
    &&& bytes::stands_at(file, 72, bytes::low_first(block, 4))
    &&& bytes::stands_at(file, 80, seq![0x64u8, 0x61, 0x74, 0x61])
    &&& bytes::stands_at(file, 84, bytes::low_first(data, 8))
}

proof fn lemma_word(file: Seq<u8>, at: int, value: nat)
    requires
        value < 0x1_0000_0000,
        bytes::stands_at(file, at, bytes::low_first(value, 4)),
    ensures
        bytes::le32(file, at) == value,
        at + 4 <= file.len(),
{
    bytes::numbers_read_back_low_first(file, at, value);
    bytes::lemma_width(value, 4);
}

proof fn lemma_long(file: Seq<u8>, at: int, value: nat)
    requires
        value < 0x1_0000_0000_0000_0000,
        bytes::stands_at(file, at, bytes::low_first(value, 8)),
    ensures
        bytes::le64(file, at) == value,
        at + 8 <= file.len(),
{
    bytes::numbers_read_back_low_first(file, at, value);
    bytes::lemma_width(value, 8);
}

proof fn lemma_mark(file: Seq<u8>, at: int, a: u8, b: u8, c: u8, d: u8)
    requires
        bytes::stands_at(file, at, seq![a, b, c, d]),
    ensures
        bytes::mark4(file, at, a, b, c, d),
{
    let mark = seq![a, b, c, d];
    assert(file[at + 0] == mark[0]);
    assert(file[at + 1] == mark[1]);
    assert(file[at + 2] == mark[2]);
    assert(file[at + 3] == mark[3]);
}

/// A header reads back as what was written to it. What the sound holds is a bit of every channel
/// for each sample, as far as the data chunk has room for it.
pub proof fn a_header_reads_back(
    file: Seq<u8>,
    tag: nat,
    channels: nat,
    rate: u32,
    lowest_first: bool,
    samples: nat,
    block: nat,
    data: nat,
)
    requires
        headed(file, tag, channels, rate, lowest_first, samples, block, data),
        tag < 0x1_0000_0000_0000_0000,
        1 <= channels <= 6,
        8 <= samples < 0x1_0000_0000_0000_0000,
        0 < block < 0x1_0000_0000,
        block % 2 == 0,
        data < 0x1_0000_0000_0000_0000,
        samples / 8 * channels + 12 <= data,
    ensures
        layout(file) == Ok::<Layout, DsfError>(
            Layout {
                format: DsdFormat { rate: DsdRate(rate), channels: channels as u16 },
                bit_order: if lowest_first {
                    BitOrder::LsbFirst
                } else {
                    BitOrder::MsbFirst
                },
                block: block as int,
                declared: samples as int / 8,
                metadata: tag as int,
            },
        ),
{
    lemma_mark(file, 0, 0x44, 0x53, 0x44, 0x20);
    lemma_long(file, 4, 28);
    lemma_long(file, 20, tag);
    lemma_mark(file, 28, 0x66, 0x6D, 0x74, 0x20);
    lemma_long(file, 32, 52);
    lemma_word(file, 40, 1);
    lemma_word(file, 44, 0);
    lemma_word(file, 52, channels);
    lemma_word(file, 56, rate as nat);
    lemma_word(
        file,
        60,
        if lowest_first {
            1
        } else {
            8
        },
    );
    lemma_long(file, 64, samples);
    lemma_word(file, 72, block);
    lemma_mark(file, 80, 0x64, 0x61, 0x74, 0x61);
    lemma_long(file, 84, data);
    let body = data - 12;
    let wide = channels as int;
    lemma_fundamental_div_mod(body, wide);
    assert(samples as int / 8 <= body / wide) by (nonlinear_arith)
        requires
            body == wide * (body / wide) + body % wide,
            0 <= body % wide < wide,
            samples as int / 8 * wide <= body,
    ;
}

/// A file plays the audio that was written to it: blocks of one channel after another, whatever
/// fills up the last of them.
pub proof fn a_file_plays_its_audio(
    file: Seq<u8>,
    tag: nat,
    rate: u32,
    lowest_first: bool,
    samples: nat,
    block: nat,
    blocks: nat,
    audio: Seq<Seq<u8>>,
)
    requires
        1 <= audio.len() <= 6,
        tag < 0x1_0000_0000_0000_0000,
        8 <= samples < 0x1_0000_0000_0000_0000,
        0 < block < 0x1_0000_0000,
        block % 2 == 0,
        samples / 8 <= blocks * block,
        blocks * block * audio.len() + 12 < 0x1_0000_0000_0000_0000,
        headed(
            file,
            tag,
            audio.len(),
            rate,
            lowest_first,
            samples,
            block,
            blocks * block * audio.len() + 12,
        ),
        file.len() >= 92 + blocks * block * audio.len(),
        forall|c: int| 0 <= c < audio.len() ==> (#[trigger] audio[c]).len() == samples / 8,
        forall|k: int, c: int, j: int|
            #![trigger file[92 + (k * audio.len() + c) * block + j]]
            0 <= k < blocks && 0 <= c < audio.len() && 0 <= j < block && k * block + j < samples / 8
                ==> {
                let byte = file[92 + (k * audio.len() + c) * block + j];
                audio[c][k * block + j] == (if lowest_first {
                    crate::dsd::reversed(byte)
                } else {
                    byte
                })
            },
    ensures
        layout(file) matches Ok(read) && read.recording(file).audio == audio
            && read.format.rate.0 == rate && read.recording(file).tags == (if tag == 0 {
            tags::no_tags()
        } else {
            tags::id3_tags(file, tag as int)
        }),
{
    let channels = audio.len() as int;
    let length = samples as int / 8;
    let b = block as int;
    let n = blocks as int;
    assert(length * channels <= n * b * channels) by (nonlinear_arith)
        requires
            length <= n * b,
            channels >= 1,
    ;
    a_header_reads_back(
        file,
        tag,
        audio.len(),
        rate,
        lowest_first,
        samples,
        block,
        blocks * block * audio.len() + 12,
    );
    let read = layout(file)->Ok_0;
    let held = file.len() - 92;
    lemma_block(held, b, channels, n);
    assert(held - n * (b * channels) >= 0) by (nonlinear_arith)
        requires
            held >= n * b * channels,
    ;
    assert(readable_bytes(held, b, channels) >= n * b);
    assert(read.length(file.len() as int) == length);
    let out = read.recording(file).audio;
    assert forall|c: int| 0 <= c < channels implies out[c] =~= audio[c] by {
        assert forall|i: int| 0 <= i < length implies out[c][i] == audio[c][i] by {
            let k = i / b;
            let j = i % b;
            lemma_fundamental_div_mod(i, b);
            lemma_mod_bound(i, b);
            assert(0 <= k < n) by (nonlinear_arith)
                requires
                    i == b * k + j,
                    0 <= j < b,
                    0 <= i < n * b,
            ;
            assert(k * (b * channels) + c * b == (k * channels + c) * b) by (nonlinear_arith);
            assert(k * b == b * k) by (nonlinear_arith);
            let byte = file[92 + (k * audio.len() + c) * block + j];
            assert(read.place(c, i) == 92 + (k * audio.len() + c) * block + j);
            assert(audio[c][k * block + j] == (if lowest_first {
                crate::dsd::reversed(byte)
            } else {
                byte
            }));
        }
    }
    assert(out =~= audio);
}

/// A file that was cut short gives those bytes that it has of every channel.
pub proof fn a_cut_file_gives_what_every_channel_has(
    held: int,
    block: int,
    channels: int,
    index: int,
    within: int,
)
    requires
        0 <= held,
        0 < block,
        1 <= channels,
        0 <= index,
        0 <= within < block,
    ensures
        (index * block + within < readable_bytes(held, block, channels)) == ((index * channels
            + channels - 1) * block + within < held),
{
    lemma_block(held, block, channels, index);
    assert((index * channels + channels - 1) * block == index * (block * channels) + (channels - 1)
        * block) by (nonlinear_arith);
    assert((channels - 1) * block + block == block * channels) by (nonlinear_arith);
    assert(0 <= (channels - 1) * block) by (nonlinear_arith)
        requires
            0 < block,
            1 <= channels,
    ;
}

/// A header whose fields are in place is refused for a channel count that is not from one to six,
/// for a block of no bytes or of an odd number, and for holding no audio; each for what it is.
pub proof fn a_header_is_refused_for_what_it_says(
    file: Seq<u8>,
    tag: nat,
    channels: nat,
    rate: u32,
    lowest_first: bool,
    samples: nat,
    block: nat,
    data: nat,
)
    requires
        headed(file, tag, channels, rate, lowest_first, samples, block, data),
        tag < 0x1_0000_0000_0000_0000,
        channels < 0x1_0000_0000,
        samples < 0x1_0000_0000_0000_0000,
        block < 0x1_0000_0000,
        data < 0x1_0000_0000_0000_0000,
    ensures
        ({
            let counted = 1 <= channels <= 6;
            let even = block > 0 && block % 2 == 0;
            &&& !counted ==> layout(file) == Err::<Layout, DsfError>(
                DsfError::Channels { channels: channels as u32 },
            )
            &&& counted && !even ==> layout(file) == Err::<Layout, DsfError>(
                DsfError::BlockSize { bytes: block as u32 },
            )
            &&& counted && even && (samples < 8 || data <= 12) ==> layout(file) == Err::<
                Layout,
                DsfError,
            >(DsfError::NoAudio)
        }),
{
    lemma_mark(file, 0, 0x44, 0x53, 0x44, 0x20);
    lemma_long(file, 4, 28);
    lemma_mark(file, 28, 0x66, 0x6D, 0x74, 0x20);
    lemma_long(file, 32, 52);
    lemma_word(file, 40, 1);
    lemma_word(file, 44, 0);
    lemma_word(file, 52, channels);
    lemma_word(
        file,
        60,
        if lowest_first {
            1
        } else {
            8
        },
    );
    lemma_long(file, 64, samples);
    lemma_word(file, 72, block);
    lemma_mark(file, 80, 0x64, 0x61, 0x74, 0x61);
    lemma_long(file, 84, data);
    if 1 <= channels <= 6 {
        let wide = channels as int;
        assert(0int / wide == 0) by (nonlinear_arith)
            requires
                wide >= 1,
        ;
        let body = if data < 12 {
            0
        } else {
            data - 12
        };
        assert(body / wide >= 0) by (nonlinear_arith)
            requires
                body >= 0,
                wide >= 1,
        ;
    }
}

} // verus!
