//! DSDIFF files as they are written, and what is read of them.

use crate::bytes;
use crate::reader::dff;
use crate::reader::dff::{DffError, Properties, Walk};
use crate::reader::tags;
use crate::reader::tags::Tags;
use crate::rows;
use crate::text;
use vstd::arithmetic::div_mod::lemma_fundamental_div_mod_converse;
use vstd::prelude::*;

verus! {

/// A chunk of a file, or a sub-chunk of one.
pub struct Chunk {
    pub mark: Seq<u8>,
    pub body: Seq<u8>,
}

/// A chunk that can be written.
pub open spec fn writable(chunk: Chunk) -> bool {
    chunk.mark.len() == 4 && chunk.body.len() < 0x1_0000_0000_0000_0000
}

/// A chunk as it is written: its mark, its size in eight bytes, its body, and a zero to make the
/// whole even.
#[verifier::opaque]
pub open spec fn chunk_bytes(chunk: Chunk) -> Seq<u8> {
    chunk.mark + bytes::high_first(chunk.body.len(), 8) + chunk.body + (if chunk.body.len() % 2
        == 1 {
        seq![0u8]
    } else {
        Seq::empty()
    })
}

pub open spec fn chunks_bytes(chunks: Seq<Chunk>) -> Seq<u8>
    decreases chunks.len(),
{
    if chunks.len() == 0 {
        Seq::empty()
    } else {
        chunk_bytes(chunks[0]) + chunks_bytes(chunks.skip(1))
    }
}

/// DSD, the sound itself.
pub open spec fn sound_mark() -> Seq<u8> {
    seq![0x44u8, 0x53, 0x44, 0x20]
}

/// DST, the sound compressed.
pub open spec fn compressed_mark() -> Seq<u8> {
    seq![0x44u8, 0x53, 0x54, 0x20]
}

/// PROP, what the sound is.
pub open spec fn property_mark() -> Seq<u8> {
    seq![0x50u8, 0x52, 0x4F, 0x50]
}

/// DIIN, who made it.
pub open spec fn information_mark() -> Seq<u8> {
    seq![0x44u8, 0x49, 0x49, 0x4E]
}

/// FS, the sample rate.
pub open spec fn rate_mark() -> Seq<u8> {
    seq![0x46u8, 0x53, 0x20, 0x20]
}

/// CHNL, the channels.
pub open spec fn channels_mark() -> Seq<u8> {
    seq![0x43u8, 0x48, 0x4E, 0x4C]
}

/// CMPR, how the sound is compressed.
pub open spec fn compression_mark() -> Seq<u8> {
    seq![0x43u8, 0x4D, 0x50, 0x52]
}

/// DIAR, the artist.
pub open spec fn artist_mark() -> Seq<u8> {
    seq![0x44u8, 0x49, 0x41, 0x52]
}

/// DITI, the title.
pub open spec fn title_mark() -> Seq<u8> {
    seq![0x44u8, 0x49, 0x54, 0x49]
}

/// A mark reads as itself and as no other.
proof fn lemma_mark(data: Seq<u8>, at: int, mark: Seq<u8>, other: Seq<u8>)
    requires
        mark.len() == 4,
        other.len() == 4,
        bytes::stands_at(data, at, mark),
    ensures
        bytes::mark4(data, at, other[0], other[1], other[2], other[3]) == (mark == other),
{
    assert(data[at + 0] == mark[0]);
    assert(data[at + 1] == mark[1]);
    assert(data[at + 2] == mark[2]);
    assert(data[at + 3] == mark[3]);
    if bytes::mark4(data, at, other[0], other[1], other[2], other[3]) {
        assert(mark =~= other);
    }
}

/// What is read of a chunk where it stands.
proof fn lemma_chunk(data: Seq<u8>, at: int, chunk: Chunk)
    requires
        writable(chunk),
        bytes::stands_at(data, at, chunk_bytes(chunk)),
    ensures
        bytes::stands_at(data, at, chunk.mark),
        bytes::be64(data, at + 4) == chunk.body.len(),
        bytes::stands_at(data, at + 12, chunk.body),
        data.subrange(at + 12, at + 12 + chunk.body.len()) == chunk.body,
        chunk_bytes(chunk).len() == 12 + chunk.body.len() + chunk.body.len() % 2,
{
    reveal(chunk_bytes);
    let size = bytes::high_first(chunk.body.len(), 8);
    let pad = if chunk.body.len() % 2 == 1 {
        seq![0u8]
    } else {
        Seq::empty()
    };
    bytes::lemma_width(chunk.body.len(), 8);
    bytes::lemma_stands(data, at, chunk.mark + size + chunk.body, pad);
    bytes::lemma_stands(data, at, chunk.mark + size, chunk.body);
    bytes::lemma_stands(data, at, chunk.mark, size);
    bytes::numbers_read_back_high_first(data, at + 4, chunk.body.len());
    let read = data.subrange(at + 12, at + 12 + chunk.body.len());
    assert forall|i: int| 0 <= i < chunk.body.len() implies read[i] == chunk.body[i] by {
        assert(data[at + 12 + i] == chunk.body[i]);
    }
    assert(read =~= chunk.body);
}

/// What a chunk adds is settled by its mark: the sound is where its body is, the properties are
/// those of its body, the names are added to those there were, compressed sound ends the walk,
/// and a chunk of any other mark is stepped over.
pub proof fn a_chunk_adds_what_its_mark_says(file: Seq<u8>, at: int, chunk: Chunk, walk: Walk)
    requires
        writable(chunk),
        bytes::stands_at(file, at, chunk_bytes(chunk)),
    ensures
        ({
            let next = at + chunk_bytes(chunk).len();
            let read = dff::walked(file, at, walk);
            if chunk.mark == sound_mark() {
                read == dff::walked(
                    file,
                    next,
                    Walk { sound: Some((at + 12, chunk.body.len() as int)), ..walk },
                )
            } else if chunk.mark == compressed_mark() {
                read == (walk, Some(DffError::DstCompressed))
            } else if chunk.mark == property_mark() {
                match dff::properties(chunk.body) {
                    Ok(found) => read == dff::walked(
                        file,
                        next,
                        Walk { rate: found.rate, channels: found.channels, ..walk },
                    ),
                    Err(error) => read == (walk, Some(error)),
                }
            } else if chunk.mark == information_mark() {
                read == dff::walked(
                    file,
                    next,
                    Walk { tags: tags::diin_tags(chunk.body, 0, walk.tags), ..walk },
                )
            } else {
                read == dff::walked(file, next, walk)
            }
        }),
{
    lemma_chunk(file, at, chunk);
    lemma_mark(file, at, chunk.mark, sound_mark());
    lemma_mark(file, at, chunk.mark, compressed_mark());
    lemma_mark(file, at, chunk.mark, property_mark());
    lemma_mark(file, at, chunk.mark, information_mark());
}

/// Chunks that say nothing of the sound or of who made it.
pub open spec fn are_others(chunks: Seq<Chunk>) -> bool {
    forall|i: int|
        0 <= i < chunks.len() ==> {
            &&& writable(#[trigger] chunks[i])
            &&& chunks[i].mark != sound_mark()
            &&& chunks[i].mark != compressed_mark()
            &&& chunks[i].mark != property_mark()
            &&& chunks[i].mark != information_mark()
        }
}

proof fn lemma_others(file: Seq<u8>, at: int, chunks: Seq<Chunk>, walk: Walk)
    requires
        are_others(chunks),
        bytes::stands_at(file, at, chunks_bytes(chunks)),
    ensures
        dff::walked(file, at, walk) == dff::walked(file, at + chunks_bytes(chunks).len(), walk),
    decreases chunks.len(),
{
    if chunks.len() > 0 {
        let rest = chunks.skip(1);
        assert(writable(chunks[0]));
        bytes::lemma_stands(file, at, chunk_bytes(chunks[0]), chunks_bytes(rest));
        a_chunk_adds_what_its_mark_says(file, at, chunks[0], walk);
        assert forall|i: int| 0 <= i < rest.len() implies {
            &&& writable(#[trigger] rest[i])
            &&& rest[i].mark != sound_mark()
            &&& rest[i].mark != compressed_mark()
            &&& rest[i].mark != property_mark()
            &&& rest[i].mark != information_mark()
        } by {
            assert(rest[i] == chunks[i + 1]);
        }
        lemma_others(file, at + chunk_bytes(chunks[0]).len(), rest, walk);
    }
}

/// What a sub-chunk of the properties adds: the rate and the channel count are those it holds,
/// and any other, such as the loudspeakers, is stepped over.
pub proof fn a_property_is_what_its_mark_says(
    body: Seq<u8>,
    at: int,
    mark: Seq<u8>,
    value: nat,
    more: Seq<u8>,
    known: Properties,
)
    requires
        mark.len() == 4,
        more.len() < 0x1_0000_0000,
        value < 0x1_0000_0000,
        mark == rate_mark() ==> more.len() == 0,
        mark == channels_mark() ==> 1 <= value <= 6,
        mark == compression_mark() ==> bytes::stands_at(more, 0, sound_mark()),
        bytes::stands_at(body, at, chunk_bytes(property_chunk(mark, value, more))),
        at % 2 == 0,
    ensures
        dff::properties_from(body, at, known) == dff::properties_from(
            body,
            at + chunk_bytes(property_chunk(mark, value, more)).len(),
            if mark == rate_mark() {
                Properties { rate: Some(value as u32), ..known }
            } else if mark == channels_mark() {
                Properties { channels: Some(value as u16), ..known }
            } else {
                known
            },
        ),
{
    let chunk = property_chunk(mark, value, more);
    bytes::lemma_width(value, 2);
    bytes::lemma_width(value, 4);
    lemma_chunk(body, at, chunk);
    lemma_mark(body, at, mark, rate_mark());
    lemma_mark(body, at, mark, channels_mark());
    lemma_mark(body, at, mark, compression_mark());
    let width: nat = if mark == channels_mark() {
        2
    } else {
        4
    };
    if mark == compression_mark() {
        assert(bytes::mark4(body, at + 12, 0x44, 0x53, 0x44, 0x20)) by {
            let name = sound_mark();
            assert(more[0int + 0] == name[0]);
            assert(more[0int + 1] == name[1]);
            assert(more[0int + 2] == name[2]);
            assert(more[0int + 3] == name[3]);
            assert(body[at + 12 + 0] == more[0]);
            assert(body[at + 12 + 1] == more[1]);
            assert(body[at + 12 + 2] == more[2]);
            assert(body[at + 12 + 3] == more[3]);
        }
        lemma_not_both();
    } else {
        bytes::lemma_stands(body, at + 12, bytes::high_first(value, width), more);
        bytes::numbers_read_back_high_first(body, at + 12, value);
        lemma_not_both();
    }
}

proof fn lemma_not_both()
    ensures
        rate_mark() != channels_mark(),
        rate_mark() != compression_mark(),
        channels_mark() != compression_mark(),
        sound_mark() != compressed_mark(),
        sound_mark() != property_mark(),
        sound_mark() != information_mark(),
        compressed_mark() != property_mark(),
        compressed_mark() != information_mark(),
        property_mark() != information_mark(),
        artist_mark() != title_mark(),
{
    assert(rate_mark()[0] != channels_mark()[0]);
    assert(rate_mark()[0] != compression_mark()[0]);
    assert(channels_mark()[1] != compression_mark()[1]);
    assert(sound_mark()[2] != compressed_mark()[2]);
    assert(sound_mark()[0] != property_mark()[0]);
    assert(sound_mark()[1] != information_mark()[1]);
    assert(compressed_mark()[0] != property_mark()[0]);
    assert(compressed_mark()[1] != information_mark()[1]);
    assert(property_mark()[0] != information_mark()[0]);
    assert(artist_mark()[2] != title_mark()[2]);
}

/// A sub-chunk of the properties: a rate in four bytes, a channel count in two and what names
/// the channels, or the name of a compression and what describes it.
pub open spec fn property_chunk(mark: Seq<u8>, value: nat, more: Seq<u8>) -> Chunk {
    Chunk {
        mark,
        body: if mark == compression_mark() {
            more
        } else if mark == channels_mark() {
            bytes::high_first(value, 2) + more
        } else {
            bytes::high_first(value, 4) + more
        },
    }
}

/// The properties of a recording: SND, its rate and its channels, and that it is not compressed.
pub open spec fn property_body(rate: u32, channels: u16, names: Seq<u8>, note: Seq<u8>) -> Seq<u8> {
    seq![0x53u8, 0x4E, 0x44, 0x20] + chunk_bytes(
        property_chunk(rate_mark(), rate as nat, Seq::empty()),
    ) + chunk_bytes(property_chunk(channels_mark(), channels as nat, names)) + chunk_bytes(
        property_chunk(compression_mark(), 0, sound_mark() + note),
    )
}

/// Properties read back.
pub proof fn properties_read_back(rate: u32, channels: u16, names: Seq<u8>, note: Seq<u8>)
    requires
        1 <= channels <= 6,
        names.len() < 0x1_0000_0000,
        note.len() < 0x1_0000,
    ensures
        dff::properties(property_body(rate, channels, names, note)) == Ok::<Properties, DffError>(
            Properties { rate: Some(rate), channels: Some(channels) },
        ),
{
    let body = property_body(rate, channels, names, note);
    let more = sound_mark() + note;
    let one = property_chunk(rate_mark(), rate as nat, Seq::empty());
    let two = property_chunk(channels_mark(), channels as nat, names);
    let three = property_chunk(compression_mark(), 0, more);
    assert(bytes::stands_at(more, 0, sound_mark())) by {
        assert forall|i: int| 0 <= i < 4 implies more[0 + i] == #[trigger] sound_mark()[i] by {}
    }
    lemma_not_both();
    lemma_three(body, chunk_bytes(one), chunk_bytes(two), chunk_bytes(three));
    lemma_even(one);
    lemma_even(two);
    let a = 4int + chunk_bytes(one).len();
    let b = a + chunk_bytes(two).len();
    let none = Properties { rate: None, channels: None };
    let rated = Properties { rate: Some(rate), channels: None };
    let both = Properties { rate: Some(rate), channels: Some(channels) };
    lemma_property(body, 4, rate_mark(), rate as nat, Seq::empty(), none);
    lemma_property(body, a, channels_mark(), channels as nat, names, rated);
    lemma_property(body, b, compression_mark(), 0, more, both);
    assert(dff::properties(body) == further(body, 4, none)) by {
        reveal(further);
    }
    assert(further(body, body.len() as int, both) == Ok::<Properties, DffError>(both)) by {
        reveal(further);
    }
}

/// What the sub-chunks from `at` on add.
#[verifier::opaque]
spec fn further(body: Seq<u8>, at: int, known: Properties) -> Result<Properties, DffError> {
    dff::properties_from(body, at, known)
}

proof fn lemma_property(
    body: Seq<u8>,
    at: int,
    mark: Seq<u8>,
    value: nat,
    more: Seq<u8>,
    known: Properties,
)
    requires
        mark == rate_mark() || mark == channels_mark() || mark == compression_mark(),
        more.len() < 0x1_0000_0000,
        value < 0x1_0000_0000,
        mark == rate_mark() ==> more.len() == 0,
        mark == channels_mark() ==> 1 <= value <= 6,
        mark == compression_mark() ==> bytes::stands_at(more, 0, sound_mark()),
        bytes::stands_at(body, at, chunk_bytes(property_chunk(mark, value, more))),
        at % 2 == 0,
    ensures
        further(body, at, known) == further(
            body,
            at + chunk_bytes(property_chunk(mark, value, more)).len(),
            if mark == rate_mark() {
                Properties { rate: Some(value as u32), ..known }
            } else if mark == channels_mark() {
                Properties { channels: Some(value as u16), ..known }
            } else {
                known
            },
        ),
{
    reveal(further);
    a_property_is_what_its_mark_says(body, at, mark, value, more, known);
}

/// A chunk takes an even number of bytes.
proof fn lemma_even(chunk: Chunk)
    ensures
        chunk_bytes(chunk).len() % 2 == chunk.mark.len() % 2,
{
    reveal(chunk_bytes);
    bytes::lemma_width(chunk.body.len(), 8);
}

proof fn lemma_three(body: Seq<u8>, one: Seq<u8>, two: Seq<u8>, three: Seq<u8>)
    requires
        body == seq![0x53u8, 0x4E, 0x44, 0x20] + one + two + three,
    ensures
        bytes::mark4(body, 0, 0x53, 0x4E, 0x44, 0x20),
        bytes::stands_at(body, 4, one),
        bytes::stands_at(body, 4int + one.len(), two),
        bytes::stands_at(body, 4int + one.len() + two.len(), three),
        body.len() == 4 + one.len() + two.len() + three.len(),
{
    let head = seq![0x53u8, 0x4E, 0x44, 0x20];
    assert(bytes::stands_at(body, 0, head + one + two + three));
    bytes::lemma_stands(body, 0, head + one + two, three);
    bytes::lemma_stands(body, 0, head + one, two);
    bytes::lemma_stands(body, 0, head, one);
    lemma_mark(body, 0, head, head);
}

/// A file: FRM8, its size and DSD, and then its chunks. The channels' bytes take turns in the
/// sound.
pub open spec fn file_of(
    size: nat,
    before: Seq<Chunk>,
    properties: Seq<u8>,
    between: Seq<Chunk>,
    audio: Seq<Seq<u8>>,
    length: int,
    after: Seq<Chunk>,
) -> Seq<u8> {
    file_head(size) + chunks_bytes(before) + chunk_bytes(
        Chunk { mark: property_mark(), body: properties },
    ) + chunks_bytes(between) + chunk_bytes(
        Chunk { mark: sound_mark(), body: in_turn(audio, length) },
    ) + chunks_bytes(after)
}

pub open spec fn file_head(size: nat) -> Seq<u8> {
    seq![0x46u8, 0x52, 0x4D, 0x38] + bytes::high_first(size, 8) + sound_mark()
}

pub open spec fn in_turn(audio: Seq<Seq<u8>>, length: int) -> Seq<u8> {
    let channels = audio.len() as int;
    Seq::new((length * channels) as nat, |at: int| audio[at % channels][at / channels])
}

/// A file plays the audio that was written to it, whatever other chunks stand before, between
/// and behind the properties and the sound.
pub proof fn a_file_plays_its_audio(
    size: nat,
    before: Seq<Chunk>,
    rate: u32,
    names: Seq<u8>,
    note: Seq<u8>,
    between: Seq<Chunk>,
    audio: Seq<Seq<u8>>,
    length: int,
    after: Seq<Chunk>,
)
    requires
        are_others(before),
        are_others(between),
        are_others(after),
        1 <= audio.len() <= 6,
        names.len() < 0x1_0000_0000,
        note.len() < 0x1_0000,
        0 <= length < 0x100_0000_0000_0000,
        forall|c: int| 0 <= c < audio.len() ==> (#[trigger] audio[c]).len() == length,
    ensures
        ({
            let properties = property_body(rate, audio.len() as u16, names, note);
            let file = file_of(size, before, properties, between, audio, length, after);
            &&& dff::layout(file) matches Ok(layout)
            &&& layout.format.rate.0 == rate
            &&& layout.format.channels == audio.len()
            &&& layout.tags == tags::no_tags()
            &&& layout.declared == length
            &&& layout.recording(file).audio == audio
        }),
{
    let channels = audio.len() as int;
    let properties = property_body(rate, audio.len() as u16, names, note);
    let file = file_of(size, before, properties, between, audio, length, after);
    assert(0 <= length * channels <= length * 6) by (nonlinear_arith)
        requires
            0 <= length,
            1 <= channels <= 6,
    ;
    properties_read_back(rate, audio.len() as u16, names, note);
    lemma_property_len(rate, audio.len() as u16, names, note);
    let about = Chunk { mark: property_mark(), body: properties };
    let sound = Chunk { mark: sound_mark(), body: in_turn(audio, length) };
    let start = lemma_walk(file, size, before, about, between, sound, after);
    lemma_fundamental_div_mod_converse(length * channels, channels, length, 0);
    let layout = dff::layout(file)->Ok_0;
    assert(layout.declared == length);
    assert(layout.length(file.len() as int) == length) by {
        let left = file.len() - layout.start;
        assert(left >= length * channels);
        vstd::arithmetic::div_mod::lemma_div_is_ordered(length * channels, left, channels);
    }
    let read = layout.recording(file).audio;
    assert forall|k: int| 0 <= k < channels implies read[k] =~= audio[k] by {
        assert forall|i: int| 0 <= i < length implies read[k][i] == audio[k][i] by {
            rows::lemma_slot(i, k, channels);
            rows::lemma_row_fits(i, length, channels);
            assert(file[start + (i * channels + k)] == sound.body[i * channels + k]);
        }
    }
    assert(read =~= audio);
}

/// The walk over a whole file, and where the sound starts in it.
proof fn lemma_walk(
    file: Seq<u8>,
    size: nat,
    before: Seq<Chunk>,
    about: Chunk,
    between: Seq<Chunk>,
    sound: Chunk,
    after: Seq<Chunk>,
) -> (start: int)
    requires
        are_others(before),
        are_others(between),
        are_others(after),
        writable(about),
        writable(sound),
        about.mark == property_mark(),
        sound.mark == sound_mark(),
        dff::properties(about.body) is Ok,
        file == file_head(size) + chunks_bytes(before) + chunk_bytes(about) + chunks_bytes(between)
            + chunk_bytes(sound) + chunks_bytes(after),
    ensures
        bytes::stands_at(file, start, sound.body),
        bytes::mark4(file, 0, 0x46, 0x52, 0x4D, 0x38),
        bytes::mark4(file, 12, 0x44, 0x53, 0x44, 0x20),
        file.len() >= 16,
        dff::walked(file, 16, dff::walk_start()) == (
            Walk {
                rate: dff::properties(about.body)->Ok_0.rate,
                channels: dff::properties(about.body)->Ok_0.channels,
                sound: Some((start, sound.body.len() as int)),
                tags: tags::no_tags(),
            },
            None::<DffError>,
        ),
{
    let head = file_head(size);
    let first = chunks_bytes(before);
    let second = chunks_bytes(between);
    let third = chunks_bytes(after);
    let one = chunk_bytes(about);
    let two = chunk_bytes(sound);
    assert(bytes::stands_at(file, 0, head + first + one + second + two + third));
    bytes::lemma_stands(file, 0, head + first + one + second + two, third);
    bytes::lemma_stands(file, 0, head + first + one + second, two);
    bytes::lemma_stands(file, 0, head + first + one, second);
    bytes::lemma_stands(file, 0, head + first, one);
    bytes::lemma_stands(file, 0, head, first);
    lemma_head(file, size);
    let a = 16int + first.len();
    let b = a + one.len();
    let c = b + second.len();
    let d = c + two.len();
    let start = dff::walk_start();
    let found = dff::properties(about.body)->Ok_0;
    let known = Walk { rate: found.rate, channels: found.channels, ..start };
    let done = Walk { sound: Some((c + 12, sound.body.len() as int)), ..known };
    lemma_not_both();
    lemma_others(file, 16int, before, start);
    a_chunk_adds_what_its_mark_says(file, a, about, start);
    lemma_others(file, b, between, known);
    a_chunk_adds_what_its_mark_says(file, c, sound, known);
    lemma_others(file, d, after, done);
    assert(d + third.len() == file.len());
    lemma_chunk(file, c, sound);
    c + 12
}

proof fn lemma_property_len(rate: u32, channels: u16, names: Seq<u8>, note: Seq<u8>)
    requires
        names.len() < 0x1_0000_0000,
        note.len() < 0x1_0000,
    ensures
        property_body(rate, channels, names, note).len() < 0x2_0000_0000,
{
    bytes::lemma_width(rate as nat, 4);
    bytes::lemma_width(channels as nat, 2);
    let one = property_chunk(rate_mark(), rate as nat, Seq::empty());
    let two = property_chunk(channels_mark(), channels as nat, names);
    let three = property_chunk(compression_mark(), 0, sound_mark() + note);
    reveal(chunk_bytes);
    lemma_not_both();
    bytes::lemma_width(one.body.len(), 8);
    bytes::lemma_width(two.body.len(), 8);
    bytes::lemma_width(three.body.len(), 8);
}

proof fn lemma_head(file: Seq<u8>, size: nat)
    requires
        bytes::stands_at(file, 0, file_head(size)),
    ensures
        file_head(size).len() == 16,
        bytes::mark4(file, 0, 0x46, 0x52, 0x4D, 0x38),
        bytes::mark4(file, 12, 0x44, 0x53, 0x44, 0x20),
{
    let form = seq![0x46u8, 0x52, 0x4D, 0x38];
    bytes::lemma_width(size, 8);
    bytes::lemma_stands(file, 0, form + bytes::high_first(size, 8), sound_mark());
    bytes::lemma_stands(file, 0, form, bytes::high_first(size, 8));
    lemma_mark(file, 0, form, form);
    lemma_mark(file, 12, sound_mark(), sound_mark());
}

/// A sub-chunk of the information: a count of letters and the letters.
pub open spec fn information_chunk(mark: Seq<u8>, count: nat, letters: Seq<u8>) -> Chunk {
    Chunk { mark, body: bytes::high_first(count, 4) + letters }
}

/// What a sub-chunk of the information adds: the artist's name or the title, whatever the count
/// before it says; any other is stepped over.
pub proof fn information_is_what_its_mark_says(
    body: Seq<u8>,
    at: int,
    mark: Seq<u8>,
    count: nat,
    letters: Seq<u8>,
    known: Tags,
)
    requires
        mark.len() == 4,
        letters.len() < 0x1_0000_0000,
        bytes::stands_at(body, at, chunk_bytes(information_chunk(mark, count, letters))),
        at % 2 == 0,
    ensures
        tags::diin_tags(body, at, known) == tags::diin_tags(
            body,
            at + chunk_bytes(information_chunk(mark, count, letters)).len(),
            if mark == artist_mark() {
                Tags { artist: tags::plain_text(letters), ..known }
            } else if mark == title_mark() {
                Tags { title: tags::plain_text(letters), ..known }
            } else {
                known
            },
        ),
{
    let chunk = information_chunk(mark, count, letters);
    bytes::lemma_width(count, 4);
    lemma_chunk(body, at, chunk);
    lemma_mark(body, at, mark, artist_mark());
    lemma_mark(body, at, mark, title_mark());
    lemma_not_both();
    let read = body.subrange(at + 16, at + 12 + chunk.body.len());
    assert forall|i: int| 0 <= i < letters.len() implies read[i] == letters[i] by {
        assert(body[at + 12 + (4 + i)] == chunk.body[4 + i]);
    }
    assert(read =~= letters);
}

/// Text is read letter for byte up to its first zero.
pub proof fn plain_text_ends_at_a_zero(words: Seq<u8>, after: Seq<u8>)
    requires
        words.len() > 0,
        !text::is_space(words[0] as char),
        !text::is_space(words.last() as char),
        forall|i: int| 0 <= i < words.len() ==> #[trigger] words[i] != 0,
        after.len() > 0 ==> after[0] == 0,
    ensures
        tags::plain_text(words + after) == Some(
            Seq::new(words.len(), |i: int| words[i] as char),
        ),
{
    let body = words + after;
    let said = Seq::new(words.len(), |i: int| words[i] as char);
    lemma_zero(body, 0, words.len() as int);
    assert(text::latin1(body.subrange(0, words.len() as int)) =~= said);
    assert(text::trimmed(said) == said);
}

proof fn lemma_zero(body: Seq<u8>, from: int, at: int)
    requires
        0 <= from <= at <= body.len(),
        at < body.len() ==> body[at] == 0,
        forall|i: int| from <= i < at ==> #[trigger] body[i] != 0,
    ensures
        tags::nul_at(body, from) == at,
    decreases at - from,
{
    if from < at {
        lemma_zero(body, from + 1, at);
    }
}

/// Channels that are not from one to six, and sound that is compressed, are refused wherever among
/// the properties they stand.
pub proof fn properties_are_refused_for_what_they_say(
    body: Seq<u8>,
    at: int,
    mark: Seq<u8>,
    value: nat,
    more: Seq<u8>,
    known: Properties,
)
    requires
        mark == channels_mark() || mark == compression_mark(),
        more.len() < 0x1_0000_0000,
        value < 0x1_0000,
        mark == channels_mark() ==> !(1 <= value <= 6),
        mark == compression_mark() ==> more.len() >= 4 && !bytes::mark4(
            more,
            0,
            0x44,
            0x53,
            0x44,
            0x20,
        ),
        bytes::stands_at(body, at, chunk_bytes(property_chunk(mark, value, more))),
    ensures
        mark == channels_mark() ==> dff::properties_from(body, at, known) == Err::<
            Properties,
            DffError,
        >(DffError::Channels { channels: value as u16 }),
        mark == compression_mark() ==> dff::properties_from(body, at, known) == Err::<
            Properties,
            DffError,
        >(DffError::Compression { a: more[0], b: more[1], c: more[2], d: more[3] }),
{
    let chunk = property_chunk(mark, value, more);
    bytes::lemma_width(value, 2);
    lemma_chunk(body, at, chunk);
    lemma_mark(body, at, mark, rate_mark());
    lemma_mark(body, at, mark, channels_mark());
    lemma_mark(body, at, mark, compression_mark());
    lemma_not_both();
    if mark == compression_mark() {
        assert(body[at + 12 + 0] == more[0]);
        assert(body[at + 12 + 1] == more[1]);
        assert(body[at + 12 + 2] == more[2]);
        assert(body[at + 12 + 3] == more[3]);
    } else {
        bytes::lemma_stands(body, at + 12, bytes::high_first(value, 2), more);
        bytes::numbers_read_back_high_first(body, at + 12, value);
    }
}

} // verus!
