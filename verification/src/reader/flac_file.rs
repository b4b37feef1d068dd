//! FLAC files as they are written, and what is read of the metadata ahead of their audio.

use crate::audio::PcmFormat;
use crate::bytes;
use crate::reader::flac;
use crate::reader::flac::{FlacError, Preamble, SeekPoint};
use crate::reader::tags;
use crate::reader::tags::Tags;
use crate::text;
use vstd::prelude::*;
use vstd::utf8;

verus! {

/// A metadata block: what kind it is, and what it holds.
pub struct Block {
    pub kind: u8,
    pub body: Seq<u8>,
}

/// A block as it stands in a file: a byte for its kind, whose highest bit says that it is the
/// last, three for its length, and its body.
pub open spec fn block_bytes(block: Block, last: bool) -> Seq<u8> {
    seq![
        if last {
            (block.kind + 128) as u8
        } else {
            block.kind
        },
    ] + bytes::high_first(block.body.len(), 3) + block.body
}

/// Blocks one after the other, the last of them marked.
pub open spec fn blocks_bytes(blocks: Seq<Block>) -> Seq<u8>
    decreases blocks.len(),
{
    if blocks.len() == 0 {
        Seq::empty()
    } else {
        block_bytes(blocks[0], blocks.len() == 1) + blocks_bytes(blocks.skip(1))
    }
}

/// A file: its marker, its metadata, and its audio.
pub open spec fn file_of(blocks: Seq<Block>, audio: Seq<u8>) -> Seq<u8> {
    seq![0x66u8, 0x4Cu8, 0x61u8, 0x43u8] + blocks_bytes(blocks) + audio
}

/// Bytes that blocks take in all: four of header and the body of each.
pub open spec fn sizes(blocks: Seq<Block>) -> nat
    decreases blocks.len(),
{
    if blocks.len() == 0 {
        0
    } else {
        4 + blocks[0].body.len() + sizes(blocks.skip(1))
    }
}

/// What the last block of a kind holds, if there is one.
pub open spec fn last_of(blocks: Seq<Block>, kind: u8) -> Option<Seq<u8>>
    decreases blocks.len(),
{
    if blocks.len() == 0 {
        None
    } else if blocks.last().kind == kind {
        Some(blocks.last().body)
    } else {
        last_of(blocks.drop_last(), kind)
    }
}

/// A block that fits its header. One that describes the stream describes one that can be played,
/// and one that is read at all is no longer than four mebibytes.
pub open spec fn writable(block: Block) -> bool {
    &&& block.kind < 127
    &&& block.body.len() < 0x100_0000
    &&& block.kind == 0 || block.kind == 3 || block.kind == 4 ==> block.body.len() <= 0x40_0000
    &&& block.kind == 0 ==> flac::stream_info(block.body) is Ok
}

/// What blocks say of a stream that `stream`, `points` and `names` was said of before.
spec fn said(
    blocks: Seq<Block>,
    stream: Option<(PcmFormat, u64, usize)>,
    points: Seq<SeekPoint>,
    names: Tags,
) -> (Option<(PcmFormat, u64, usize)>, Seq<SeekPoint>, Tags) {
    (
        match last_of(blocks, 0) {
            Some(body) => Some(flac::stream_info(body)->Ok_0),
            None => stream,
        },
        match last_of(blocks, 3) {
            Some(body) => flac::in_stream_order(flac::filled_points(body, 0)),
            None => points,
        },
        match last_of(blocks, 4) {
            Some(body) => flac::comment_tags(body),
            None => names,
        },
    )
}

proof fn lemma_last_of(blocks: Seq<Block>, kind: u8)
    requires
        blocks.len() > 0,
    ensures
        last_of(blocks, kind) == (match last_of(blocks.skip(1), kind) {
            Some(body) => Some(body),
            None => if blocks[0].kind == kind {
                Some(blocks[0].body)
            } else {
                None
            },
        }),
    decreases blocks.len(),
{
    if blocks.len() == 1 {
        assert(blocks.skip(1) =~= Seq::empty());
        assert(blocks.drop_last() =~= Seq::empty());
        assert(last_of(blocks.drop_last(), kind) is None);
    } else {
        assert(blocks.skip(1).last() == blocks.last());
        assert(blocks.skip(1).drop_last() =~= blocks.drop_last().skip(1));
        if blocks.last().kind != kind {
            lemma_last_of(blocks.drop_last(), kind);
        }
    }
}

proof fn lemma_block(block: Block, last: bool)
    requires
        block.kind < 127,
        block.body.len() < 0x100_0000,
    ensures
        block_bytes(block, last).len() == 4 + block.body.len(),
{
    bytes::lemma_high_first(block.body.len());
}

proof fn lemma_header(file: Seq<u8>, at: int, block: Block, last: bool)
    requires
        block.kind < 127,
        block.body.len() < 0x100_0000,
        bytes::stands_at(file, at, block_bytes(block, last)),
    ensures
        0 <= at,
        at + 4 + block.body.len() <= file.len(),
        file[at] == (if last {
            block.kind + 128
        } else {
            block.kind as int
        }),
        file[at] as int % 128 == block.kind,
        file[at] < 128 <==> !last,
        bytes::be24(file, at + 1) == block.body.len(),
        file.subrange(at + 4, at + 4 + block.body.len()) == block.body,
{
    let length = bytes::high_first(block.body.len(), 3);
    bytes::lemma_high_first(block.body.len());
    let flag = seq![
        if last {
            (block.kind + 128) as u8
        } else {
            block.kind
        },
    ];
    assert(block_bytes(block, last) == (flag + length) + block.body);
    bytes::lemma_stands(file, at, flag + length, block.body);
    bytes::lemma_stands(file, at, flag, length);
    assert(file[at + 0] == flag[0]);
    bytes::numbers_read_back_high_first(file, at + 1, block.body.len());
    let body = file.subrange(at + 4, at + 4 + block.body.len());
    assert forall|i: int| 0 <= i < block.body.len() implies body[i] == block.body[i] by {
        assert(file[at + (flag + length).len() + i] == block.body[i]);
    }
    assert(body =~= block.body);
}

proof fn lemma_blocks(
    file: Seq<u8>,
    at: int,
    list: Seq<Block>,
    stream: Option<(PcmFormat, u64, usize)>,
    points: Seq<SeekPoint>,
    names: Tags,
)
    requires
        list.len() > 0,
        forall|i: int| 0 <= i < list.len() ==> writable(#[trigger] list[i]),
        bytes::stands_at(file, at, blocks_bytes(list)),
    ensures
        flac::blocks(file, at, stream, points, names) == (match said(list, stream, points, names).0 {
            Some((format, total_frames, max_block_frames)) => Ok::<Preamble, FlacError>(
                Preamble {
                    format,
                    total_frames,
                    max_block_frames,
                    seek_points: said(list, stream, points, names).1,
                    tags: said(list, stream, points, names).2,
                    audio_start: (at + sizes(list)) as int,
                },
            ),
            None => Err::<Preamble, FlacError>(FlacError::NoStreamInfo),
        }),
    decreases list.len(),
{
    let block = list[0];
    let rest = list.skip(1);
    let last = list.len() == 1;
    let end = at + 4 + block.body.len();
    assert(writable(block));
    lemma_block(block, last);
    bytes::lemma_stands(file, at, block_bytes(block, last), blocks_bytes(rest));
    lemma_header(file, at, block, last);
    lemma_last_of(list, 0);
    lemma_last_of(list, 3);
    lemma_last_of(list, 4);
    if last {
        assert(rest =~= Seq::empty());
        assert(sizes(rest) == 0);
    } else {
        assert forall|i: int| 0 <= i < rest.len() implies writable(#[trigger] rest[i]) by {
            assert(rest[i] == list[i + 1]);
        }
        let (now_stream, now_points, now_names) = said(seq![block], stream, points, names);
        assert(seq![block].drop_last() =~= Seq::empty());
        reveal_with_fuel(last_of, 2);
        lemma_blocks(file, end, rest, now_stream, now_points, now_names);
    }
}

/// Where a file is the marker, a list of metadata blocks of which the last is marked, and audio,
/// the audio starts behind every block, whatever kind it is of and however long: at four and the
/// sum of four and its length over all blocks. The stream is what the last block of kind 0
/// describes, the seek points are those of the last of kind 3, and the tags those of the last of
/// kind 4.
pub proof fn audio_starts_behind_every_block(list: Seq<Block>, audio: Seq<u8>)
    requires
        forall|i: int| 0 <= i < list.len() ==> writable(#[trigger] list[i]),
        last_of(list, 0) is Some,
    ensures
        ({
            let (format, total_frames, max_block_frames) = flac::stream_info(
                last_of(list, 0)->0,
            )->Ok_0;
            flac::preamble(file_of(list, audio)) == Ok::<Preamble, FlacError>(
                Preamble {
                    format,
                    total_frames,
                    max_block_frames,
                    seek_points: match last_of(list, 3) {
                        Some(body) => flac::in_stream_order(flac::filled_points(body, 0)),
                        None => Seq::empty(),
                    },
                    tags: match last_of(list, 4) {
                        Some(body) => flac::comment_tags(body),
                        None => tags::no_tags(),
                    },
                    audio_start: (4 + sizes(list)) as int,
                },
            )
        }),
        file_of(list, audio).skip((4 + sizes(list)) as int) == audio,
{
    let file = file_of(list, audio);
    let marker = seq![0x66u8, 0x4Cu8, 0x61u8, 0x43u8];
    let metadata = blocks_bytes(list);
    assert(file[0] == marker[0] && file[1] == marker[1] && file[2] == marker[2] && file[3]
        == marker[3]);
    assert(bytes::stands_at(file, 4, metadata)) by {
        assert forall|i: int| 0 <= i < metadata.len() implies file[4 + i] == #[trigger] metadata[i] by {}
    }
    lemma_blocks(file, 4, list, None, Seq::empty(), tags::no_tags());
    lemma_sizes(list);
    assert(file.skip((4 + sizes(list)) as int) =~= audio);
}

proof fn lemma_sizes(list: Seq<Block>)
    requires
        forall|i: int| 0 <= i < list.len() ==> writable(#[trigger] list[i]),
    ensures
        blocks_bytes(list).len() == sizes(list),
    decreases list.len(),
{
    if list.len() > 0 {
        assert(writable(list[0]));
        lemma_block(list[0], list.len() == 1);
        assert forall|i: int| 0 <= i < list.skip(1).len() implies writable(
            #[trigger] list.skip(1)[i],
        ) by {
            assert(list.skip(1)[i] == list[i + 1]);
        }
        lemma_sizes(list.skip(1));
    }
}

proof fn lemma_last_of_around(before: Seq<Block>, block: Block, after: Seq<Block>, kind: u8)
    requires
        block.kind != kind,
    ensures
        last_of(before + seq![block] + after, kind) == last_of(before + after, kind),
    decreases after.len(),
{
    if after.len() == 0 {
        assert((before + seq![block] + after).drop_last() =~= before);
        assert(before + after =~= before);
    } else {
        assert((before + seq![block] + after).drop_last() =~= before + seq![block]
            + after.drop_last());
        assert((before + after).drop_last() =~= before + after.drop_last());
        lemma_last_of_around(before, block, after.drop_last(), kind);
    }
}

proof fn lemma_sizes_around(before: Seq<Block>, block: Block, after: Seq<Block>)
    ensures
        sizes(before + seq![block] + after) == sizes(before + after) + 4 + block.body.len(),
    decreases before.len(),
{
    let whole = before + seq![block] + after;
    if before.len() == 0 {
        assert(whole.skip(1) =~= after);
        assert(before + after =~= after);
        assert(whole[0] == block);
    } else {
        assert(whole.skip(1) =~= before.skip(1) + seq![block] + after);
        assert((before + after).skip(1) =~= before.skip(1) + after);
        lemma_sizes_around(before.skip(1), block, after);
    }
}

/// A block of a kind that is not read -- padding, artwork, an application's own -- changes
/// nothing wherever it is put in, but that the audio starts so much later.
pub proof fn an_unread_block_is_stepped_over(
    before: Seq<Block>,
    block: Block,
    after: Seq<Block>,
    audio: Seq<u8>,
)
    requires
        forall|i: int| 0 <= i < before.len() ==> writable(#[trigger] before[i]),
        forall|i: int| 0 <= i < after.len() ==> writable(#[trigger] after[i]),
        last_of(before + after, 0) is Some,
        writable(block),
        block.kind != 0 && block.kind != 3 && block.kind != 4,
    ensures
        flac::preamble(file_of(before + after, audio)) is Ok,
        flac::preamble(file_of(before + seq![block] + after, audio)) == ({
            let without = flac::preamble(file_of(before + after, audio))->Ok_0;
            Ok::<Preamble, FlacError>(
                Preamble {
                    audio_start: without.audio_start + 4 + block.body.len(),
                    ..without
                },
            )
        }),
{
    let whole = before + seq![block] + after;
    assert forall|i: int| 0 <= i < whole.len() implies writable(#[trigger] whole[i]) by {
        if i < before.len() {
            assert(whole[i] == before[i]);
        } else if i > before.len() {
            assert(whole[i] == after[i - before.len() - 1]);
        }
    }
    let without = before + after;
    assert forall|i: int| 0 <= i < without.len() implies writable(#[trigger] without[i]) by {
        if i < before.len() {
            assert(without[i] == before[i]);
        } else {
            assert(without[i] == after[i - before.len()]);
        }
    }
    lemma_last_of_around(before, block, after, 0);
    lemma_last_of_around(before, block, after, 3);
    lemma_last_of_around(before, block, after, 4);
    lemma_sizes_around(before, block, after);
    audio_starts_behind_every_block(whole, audio);
    audio_starts_behind_every_block(without, audio);
}

/// What a stream is described by.
pub struct Description {
    pub least_block: nat,
    pub most_block: nat,
    pub least_frame: nat,
    pub most_frame: nat,
    pub rate: nat,
    pub channels: nat,
    pub bits: nat,
    pub frames: nat,
    pub digest: Seq<u8>,
}

/// The block that describes a stream: two block sizes of sixteen bits, two frame sizes of
/// twenty-four, the rate in twenty bits, the channels less one in three, the bits less one in
/// five, the frames in thirty-six, and a digest.
pub open spec fn description_bytes(stream: Description) -> Seq<u8> {
    bytes::high_first(stream.least_block, 2) + bytes::high_first(stream.most_block, 2)
        + bytes::high_first(stream.least_frame, 3) + bytes::high_first(stream.most_frame, 3)
        + bytes::high_first(packed(stream), 8) + stream.digest
}

/// The rate, the channels, the bits and the frames in one number of 64 bits.
pub open spec fn packed(stream: Description) -> nat {
    (stream.rate * 0x1000_0000_0000 + (stream.channels - 1) * 0x200_0000_0000 + (stream.bits - 1)
        * 0x10_0000_0000 + stream.frames) as nat
}

proof fn lemma_packed(stream: Description)
    requires
        stream.rate < 0x10_0000,
        1 <= stream.channels <= 8,
        1 <= stream.bits <= 32,
        stream.frames < 0x10_0000_0000,
    ensures
        packed(stream) < 0x1_0000_0000_0000_0000,
        packed(stream) / 0x1000_0000_0000 == stream.rate,
        packed(stream) / 0x200_0000_0000 % 8 == stream.channels - 1,
        packed(stream) / 0x10_0000_0000 % 32 == stream.bits - 1,
        packed(stream) % 0x10_0000_0000 == stream.frames,
{
    let low = (stream.bits - 1) * 0x10_0000_0000 + stream.frames;
    let middle = (stream.channels - 1) * 0x200_0000_0000 + low;
    let number = packed(stream) as int;
    assert(0 <= low < 0x200_0000_0000);
    assert(0 <= middle < 0x1000_0000_0000);
    assert(number == stream.rate * 0x1000_0000_0000 + middle);
    assert(number / 0x200_0000_0000 == stream.rate * 8 + (stream.channels - 1));
    assert(number / 0x10_0000_0000 == (stream.rate * 8 + (stream.channels - 1)) * 32 + (stream.bits
        - 1));
}

proof fn lemma_description(stream: Description)
    requires
        stream.most_block < 0x1_0000,
        packed(stream) < 0x1_0000_0000_0000_0000,
        stream.digest.len() == 16,
    ensures
        description_bytes(stream).len() == 34,
        bytes::be16(description_bytes(stream), 2) == stream.most_block,
        bytes::be64(description_bytes(stream), 10) == packed(stream),
{
    let body = description_bytes(stream);
    let number = packed(stream);
    bytes::lemma_high_first(stream.least_block);
    bytes::lemma_high_first(stream.most_block);
    bytes::lemma_high_first(stream.least_frame);
    bytes::lemma_high_first(stream.most_frame);
    bytes::lemma_high_first(number);
    bytes::lemma_high_first(number / 0x1_0000_0000);
    let a = bytes::high_first(stream.least_block, 2);
    let b = bytes::high_first(stream.most_block, 2);
    let c = bytes::high_first(stream.least_frame, 3) + bytes::high_first(stream.most_frame, 3);
    let d = bytes::high_first(number, 8);
    assert(body =~= a + (b + (c + (d + stream.digest))));
    assert(bytes::stands_at(body, 0, a + (b + (c + (d + stream.digest)))));
    bytes::lemma_stands(body, 0, a, b + (c + (d + stream.digest)));
    bytes::lemma_stands(body, 2, b, c + (d + stream.digest));
    bytes::lemma_stands(body, 4, c, d + stream.digest);
    bytes::lemma_stands(body, 10, d, stream.digest);
    bytes::numbers_read_back_high_first(body, 2, stream.most_block);
    bytes::numbers_read_back_high_first(body, 10, number);
}

/// A stream that a description spells out is the stream that is played: at its own rate, with its
/// own channels and width, and as long as it says.
pub proof fn a_description_reads_back(stream: Description)
    requires
        1 <= stream.rate < 0x10_0000,
        1 <= stream.channels <= 8,
        1 <= stream.bits <= 24,
        1 <= stream.frames < 0x10_0000_0000,
        1 <= stream.most_block < 0x1_0000,
        stream.digest.len() == 16,
    ensures
        flac::stream_info(description_bytes(stream)) == Ok::<(PcmFormat, u64, usize), FlacError>(
            (
                PcmFormat {
                    rate: stream.rate as u32,
                    bits: stream.bits as u32,
                    channels: stream.channels as u16,
                },
                stream.frames as u64,
                stream.most_block as usize,
            ),
        ),
{
    lemma_packed(stream);
    lemma_description(stream);
}

/// An entry of a seek table: a point, or the place of one that was never filled in.
pub enum Entry {
    Point { sample: u64, offset: u64, frames: u16 },
    Reserved,
}

/// An entry as it stands in the table: a sample number of 64 bits, all of them set where there is
/// none, an offset of 64 and a count of sixteen.
pub open spec fn entry_bytes(entry: Entry) -> Seq<u8> {
    match entry {
        Entry::Point { sample, offset, frames } => bytes::high_first(sample as nat, 8)
            + bytes::high_first(offset as nat, 8) + bytes::high_first(frames as nat, 2),
        Entry::Reserved => bytes::high_first(0xffff_ffff_ffff_ffff, 8) + bytes::high_first(0, 8)
            + bytes::high_first(0, 2),
    }
}

pub open spec fn table_bytes(entries: Seq<Entry>) -> Seq<u8>
    decreases entries.len(),
{
    if entries.len() == 0 {
        Seq::empty()
    } else {
        entry_bytes(entries[0]) + table_bytes(entries.skip(1))
    }
}

/// The points of a table.
pub open spec fn points_of(entries: Seq<Entry>) -> Seq<SeekPoint>
    decreases entries.len(),
{
    if entries.len() == 0 {
        Seq::empty()
    } else {
        (match entries[0] {
            Entry::Point { sample, offset, .. } => seq![SeekPoint { sample, offset }],
            Entry::Reserved => Seq::empty(),
        }) + points_of(entries.skip(1))
    }
}

/// A seek table reads back as its points, and the places of those never filled in are left out.
pub proof fn a_seek_table_reads_back(entries: Seq<Entry>)
    requires
        forall|i: int|
            0 <= i < entries.len() ==> (#[trigger] entries[i] matches Entry::Point { sample, .. }
                ==> sample < 0xffff_ffff_ffff_ffff),
    ensures
        flac::filled_points(table_bytes(entries), 0) == points_of(entries),
{
    let body = table_bytes(entries);
    assert(bytes::stands_at(body, 0, table_bytes(entries)));
    lemma_table(entries);
    lemma_points(body, 0, entries);
}

proof fn lemma_entry(entry: Entry)
    ensures
        entry_bytes(entry).len() == 18,
{
    let (sample, offset, frames) = match entry {
        Entry::Point { sample, offset, frames } => (sample as nat, offset as nat, frames as nat),
        Entry::Reserved => (0xffff_ffff_ffff_ffff, 0, 0),
    };
    bytes::lemma_high_first(sample);
    bytes::lemma_high_first(offset);
    bytes::lemma_high_first(frames);
    bytes::lemma_high_first(sample / 0x1_0000_0000);
    bytes::lemma_high_first(offset / 0x1_0000_0000);
}

proof fn lemma_table(entries: Seq<Entry>)
    ensures
        table_bytes(entries).len() == entries.len() * 18,
    decreases entries.len(),
{
    if entries.len() > 0 {
        lemma_entry(entries[0]);
        lemma_table(entries.skip(1));
    }
}

proof fn lemma_points(body: Seq<u8>, index: int, entries: Seq<Entry>)
    requires
        0 <= index,
        body.len() == index * 18 + entries.len() * 18,
        bytes::stands_at(body, index * 18, table_bytes(entries)),
        forall|i: int|
            0 <= i < entries.len() ==> (#[trigger] entries[i] matches Entry::Point { sample, .. }
                ==> sample < 0xffff_ffff_ffff_ffff),
    ensures
        flac::filled_points(body, index) == points_of(entries),
    decreases entries.len(),
{
    if entries.len() > 0 {
        let entry = entries[0];
        let rest = entries.skip(1);
        let (sample, offset, frames) = match entry {
            Entry::Point { sample, offset, frames } => (
                sample as nat,
                offset as nat,
                frames as nat,
            ),
            Entry::Reserved => (0xffff_ffff_ffff_ffff, 0, 0),
        };
        lemma_entry(entry);
        bytes::lemma_stands(body, index * 18, entry_bytes(entry), table_bytes(rest));
        let a = bytes::high_first(sample, 8);
        let b = bytes::high_first(offset, 8);
        let c = bytes::high_first(frames, 2);
        bytes::lemma_high_first(sample);
        bytes::lemma_high_first(offset);
        bytes::lemma_high_first(sample / 0x1_0000_0000);
        bytes::lemma_high_first(offset / 0x1_0000_0000);
        assert(entry_bytes(entry) == (a + b) + c);
        bytes::lemma_stands(body, index * 18, a + b, c);
        bytes::lemma_stands(body, index * 18, a, b);
        bytes::numbers_read_back_high_first(body, index * 18, sample);
        bytes::numbers_read_back_high_first(body, index * 18 + 8, offset);
        assert forall|i: int| 0 <= i < rest.len() implies (#[trigger] rest[i] matches Entry::Point {
            sample,
            ..
        } ==> sample < 0xffff_ffff_ffff_ffff) by {
            assert(rest[i] == entries[i + 1]);
        }
        assert(entries[0] == entry);
        lemma_points(body, index + 1, rest);
        assert(points_of(entries) =~= (match entry {
            Entry::Point { sample, offset, .. } => seq![SeekPoint { sample, offset }],
            Entry::Reserved => Seq::empty(),
        }) + points_of(rest));
    }
}

/// A field of a comment: a name and a value.
pub struct Field {
    pub name: Seq<char>,
    pub value: Seq<char>,
}

/// A field as it stands in a comment: its length in four bytes with the lowest first, and its
/// name, an equals sign and its value in UTF-8.
pub open spec fn field_text(field: Field) -> Seq<u8> {
    utf8::encode_utf8(field.name + seq!['='] + field.value)
}

pub open spec fn fields_bytes(fields: Seq<Field>) -> Seq<u8>
    decreases fields.len(),
{
    if fields.len() == 0 {
        Seq::empty()
    } else {
        bytes::low_first(field_text(fields[0]).len(), 4) + field_text(fields[0]) + fields_bytes(
            fields.skip(1),
        )
    }
}

/// A comment: the name of what wrote it, how many fields there are, and the fields.
pub open spec fn comment_bytes(vendor: Seq<u8>, fields: Seq<Field>) -> Seq<u8> {
    bytes::low_first(vendor.len(), 4) + vendor + bytes::low_first(fields.len(), 4) + fields_bytes(
        fields,
    )
}

/// A name in letters of either case.
pub open spec fn is_named(name: Seq<char>, upper: Seq<char>) -> bool {
    &&& name.len() == upper.len()
    &&& forall|i: int|
        0 <= i < name.len() ==> #[trigger] name[i] == upper[i] || name[i] as int == upper[i] as int
            + 32
}

/// The value of the last field of a name, if there is one.
pub open spec fn last_named(fields: Seq<Field>, upper: Seq<char>) -> Option<Seq<char>>
    decreases fields.len(),
{
    if fields.len() == 0 {
        None
    } else if is_named(fields.last().name, upper) {
        Some(fields.last().value)
    } else {
        last_named(fields.drop_last(), upper)
    }
}

pub open spec fn title_name() -> Seq<char> {
    seq!['T', 'I', 'T', 'L', 'E']
}

pub open spec fn artist_name() -> Seq<char> {
    seq!['A', 'R', 'T', 'I', 'S', 'T']
}

pub open spec fn album_name() -> Seq<char> {
    seq!['A', 'L', 'B', 'U', 'M']
}

pub open spec fn track_name() -> Seq<char> {
    seq!['T', 'R', 'A', 'C', 'K', 'N', 'U', 'M', 'B', 'E', 'R']
}

/// A field that can be written.
pub open spec fn is_field(field: Field) -> bool {
    &&& field.value.len() > 0
    &&& field_text(field).len() < 0x1_0000_0000
    &&& forall|i: int| 0 <= i < field.name.len() ==> #[trigger] field.name[i] != '='
}

proof fn lemma_names()
    ensures
        "TITLE"@ == title_name(),
        "ARTIST"@ == artist_name(),
        "ALBUM"@ == album_name(),
        "TRACKNUMBER"@ == track_name(),
{
    reveal_strlit("TITLE");
    reveal_strlit("ARTIST");
    reveal_strlit("ALBUM");
    reveal_strlit("TRACKNUMBER");
    assert("TITLE"@ =~= title_name());
    assert("ARTIST"@ =~= artist_name());
    assert("ALBUM"@ =~= album_name());
    assert("TRACKNUMBER"@ =~= track_name());
}

proof fn lemma_named(name: Seq<char>, upper: Seq<char>)
    requires
        forall|i: int| 0 <= i < upper.len() ==> 'A' <= #[trigger] upper[i] && upper[i] <= 'Z',
    ensures
        text::same_letters(name, upper) == is_named(name, upper),
{
    if text::same_letters(name, upper) {
        assert forall|i: int| 0 <= i < name.len() implies #[trigger] name[i] == upper[i]
            || name[i] as int == upper[i] as int + 32 by {
            assert('A' <= upper[i] && upper[i] <= 'Z');
            assert(text::ascii_lower(name[i]) == text::ascii_lower(upper[i]));
        }
    }
    if is_named(name, upper) {
        assert forall|i: int| 0 <= i < name.len() implies text::ascii_lower(#[trigger] name[i])
            == text::ascii_lower(upper[i]) by {
            assert('A' <= upper[i] && upper[i] <= 'Z');
        }
    }
}

/// The tags that fields add to those there were.
spec fn fields_tags(fields: Seq<Field>, known: Tags) -> Tags {
    Tags {
        title: match last_named(fields, title_name()) {
            Some(value) => Some(value),
            None => known.title,
        },
        artist: match last_named(fields, artist_name()) {
            Some(value) => Some(value),
            None => known.artist,
        },
        album: match last_named(fields, album_name()) {
            Some(value) => Some(value),
            None => known.album,
        },
        track: match last_named(fields, track_name()) {
            Some(value) => tags::track_number(value),
            None => known.track,
        },
    }
}

proof fn lemma_equals(name: Seq<char>, value: Seq<char>, from: int)
    requires
        0 <= from <= name.len(),
        forall|i: int| 0 <= i < name.len() ==> #[trigger] name[i] != '=',
    ensures
        text::letter_at(name + seq!['='] + value, '=', from) == name.len(),
    decreases name.len() - from,
{
    let line = name + seq!['='] + value;
    if from < name.len() {
        assert(line[from] == name[from]);
        lemma_equals(name, value, from + 1);
    } else {
        assert(line[from] == '=');
    }
}

proof fn lemma_commented(field: Field, known: Tags)
    requires
        is_field(field),
    ensures
        flac::commented(field_text(field), known) == (if is_named(field.name, title_name()) {
            Tags { title: Some(field.value), ..known }
        } else if is_named(field.name, artist_name()) {
            Tags { artist: Some(field.value), ..known }
        } else if is_named(field.name, album_name()) {
            Tags { album: Some(field.value), ..known }
        } else if is_named(field.name, track_name()) {
            Tags { track: tags::track_number(field.value), ..known }
        } else {
            known
        }),
{
    let line = field.name + seq!['='] + field.value;
    utf8::encode_utf8_decode_utf8(line);
    utf8::encode_utf8_valid_utf8(line);
    lemma_equals(field.name, field.value, 0);
    assert(line.subrange(0, field.name.len() as int) =~= field.name);
    assert(line.subrange((field.name.len() + 1) as int, line.len() as int) =~= field.value);
    lemma_names();
    lemma_named(field.name, title_name());
    lemma_named(field.name, artist_name());
    lemma_named(field.name, album_name());
    lemma_named(field.name, track_name());
}

/// No name is two of them.
proof fn lemma_one_name(name: Seq<char>)
    ensures
        is_named(name, title_name()) ==> !is_named(name, artist_name()) && !is_named(
            name,
            album_name(),
        ) && !is_named(name, track_name()),
        is_named(name, artist_name()) ==> !is_named(name, album_name()) && !is_named(
            name,
            track_name(),
        ),
        is_named(name, album_name()) ==> !is_named(name, track_name()),
{
    if is_named(name, title_name()) && is_named(name, album_name()) {
        assert(name[0] == title_name()[0] || name[0] as int == title_name()[0] as int + 32);
        assert(name[0] == album_name()[0] || name[0] as int == album_name()[0] as int + 32);
    }
}

proof fn lemma_last_named(fields: Seq<Field>, upper: Seq<char>)
    requires
        fields.len() > 0,
    ensures
        last_named(fields, upper) == (match last_named(fields.skip(1), upper) {
            Some(value) => Some(value),
            None => if is_named(fields[0].name, upper) {
                Some(fields[0].value)
            } else {
                None
            },
        }),
    decreases fields.len(),
{
    if fields.len() == 1 {
        assert(fields.skip(1) =~= Seq::empty());
        assert(fields.drop_last() =~= Seq::empty());
        assert(last_named(fields.drop_last(), upper) is None);
    } else {
        assert(fields.skip(1).last() == fields.last());
        assert(fields.skip(1).drop_last() =~= fields.drop_last().skip(1));
        if !is_named(fields.last().name, upper) {
            lemma_last_named(fields.drop_last(), upper);
        }
    }
}

proof fn lemma_fields(body: Seq<u8>, at: int, fields: Seq<Field>, known: Tags)
    requires
        bytes::stands_at(body, at, fields_bytes(fields)),
        forall|i: int| 0 <= i < fields.len() ==> is_field(#[trigger] fields[i]),
    ensures
        flac::comments(body, at, fields.len() as int, known) == fields_tags(fields, known),
    decreases fields.len(),
{
    if fields.len() > 0 {
        let field = fields[0];
        let rest = fields.skip(1);
        let said = field_text(field);
        let size = bytes::low_first(said.len(), 4);
        assert(is_field(field));
        bytes::lemma_low_first(said.len());
        bytes::lemma_stands(body, at, size + said, fields_bytes(rest));
        bytes::lemma_stands(body, at, size, said);
        bytes::numbers_read_back_low_first(body, at, said.len());
        let end = at + 4 + said.len();
        assert(body.subrange(at + 4, end) =~= said) by {
            assert forall|i: int| 0 <= i < said.len() implies body.subrange(at + 4, end)[i]
                == said[i] by {
                assert(body[at + size.len() + i] == said[i]);
            }
        }
        lemma_commented(field, known);
        lemma_one_name(field.name);
        let next = flac::commented(said, known);
        assert forall|i: int| 0 <= i < rest.len() implies is_field(#[trigger] rest[i]) by {
            assert(rest[i] == fields[i + 1]);
        }
        lemma_fields(body, end, rest, next);
        lemma_last_named(fields, title_name());
        lemma_last_named(fields, artist_name());
        lemma_last_named(fields, album_name());
        lemma_last_named(fields, track_name());
        assert(fields_tags(fields, known) =~= fields_tags(rest, next));
    }
}

/// A comment reads back as its fields: the title, the artist, the album and the track number are
/// those of the last field of that name, in letters of either case and wherever it stands, and
/// fields of other names change nothing.
pub proof fn a_comment_reads_back_as_its_fields(vendor: Seq<u8>, fields: Seq<Field>)
    requires
        vendor.len() < 0x1_0000_0000,
        fields.len() < 0x1_0000_0000,
        forall|i: int| 0 <= i < fields.len() ==> is_field(#[trigger] fields[i]),
    ensures
        ({
            let read = flac::comment_tags(comment_bytes(vendor, fields));
            &&& read.title == last_named(fields, title_name())
            &&& read.artist == last_named(fields, artist_name())
            &&& read.album == last_named(fields, album_name())
            &&& read.track == (match last_named(fields, track_name()) {
                Some(value) => tags::track_number(value),
                None => None,
            })
        }),
{
    let body = comment_bytes(vendor, fields);
    let a = bytes::low_first(vendor.len(), 4);
    let b = bytes::low_first(fields.len(), 4);
    bytes::lemma_width(vendor.len(), 4);
    bytes::lemma_width(fields.len(), 4);
    assert(body =~= a + (vendor + (b + fields_bytes(fields))));
    assert(bytes::stands_at(body, 0, a + (vendor + (b + fields_bytes(fields)))));
    bytes::lemma_stands(body, 0, a, vendor + (b + fields_bytes(fields)));
    bytes::lemma_stands(body, 4, vendor, b + fields_bytes(fields));
    bytes::lemma_stands(body, (4 + vendor.len()) as int, b, fields_bytes(fields));
    bytes::numbers_read_back_low_first(body, 0, vendor.len());
    bytes::numbers_read_back_low_first(body, (4 + vendor.len()) as int, fields.len());
    lemma_fields(body, (8 + vendor.len()) as int, fields, tags::no_tags());
}

/// A stream is refused where it has no rate, no block size or no length, or where its samples are
/// wider than 24 bits, and for nothing else that a description can say.
pub proof fn a_description_is_refused_where_it_cannot_be_played(stream: Description)
    requires
        stream.rate < 0x10_0000,
        1 <= stream.channels <= 8,
        1 <= stream.bits <= 32,
        stream.frames < 0x10_0000_0000,
        stream.most_block < 0x1_0000,
        stream.digest.len() == 16,
    ensures
        flac::stream_info(description_bytes(stream)) is Err <==> stream.rate == 0
            || stream.most_block == 0 || stream.frames == 0 || stream.bits > 24,
        stream.rate > 0 && stream.most_block > 0 && stream.frames > 0 && stream.bits > 24
            ==> flac::stream_info(description_bytes(stream)) == Err::<
            (PcmFormat, u64, usize),
            FlacError,
        >(FlacError::Width { bits: stream.bits as u32 }),
{
    lemma_packed(stream);
    lemma_description(stream);
}

} // verus!
