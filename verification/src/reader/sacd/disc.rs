//! The tables of contents of a disc as they are written, and what is read of them.

use crate::bytes;
use crate::reader::sacd::toc;
use crate::reader::sacd::toc::{AreaListing, Mark, TocError};
use crate::reader::tags;
use crate::reader::tags::Tags;
use crate::text;
use vstd::prelude::*;
use vstd::utf8;

verus! {

/// A time in minutes, seconds and seventy-fifths.
pub struct Time {
    pub minutes: u8,
    pub seconds: u8,
    pub frames: u8,
}

pub open spec fn in_frames(time: Time) -> int {
    (time.minutes * 60 + time.seconds) * 75 + time.frames
}

/// Where a track lies, in sectors and in time.
pub struct Place {
    pub lsn: u32,
    pub sectors: u32,
    pub start: Time,
    pub length: Time,
}

/// SACDTRL1, ahead of where the tracks lie.
pub open spec fn places_mark() -> Seq<u8> {
    seq![0x53u8, 0x41, 0x43, 0x44, 0x54, 0x52, 0x4C, 0x31]
}

/// SACDTRL2, ahead of when they start and how long they are.
pub open spec fn times_mark() -> Seq<u8> {
    seq![0x53u8, 0x41, 0x43, 0x44, 0x54, 0x52, 0x4C, 0x32]
}

/// SACDTTxt, ahead of what they are called.
pub open spec fn names_mark() -> Seq<u8> {
    seq![0x53u8, 0x41, 0x43, 0x44, 0x54, 0x54, 0x78, 0x74]
}

/// TWOCHTOC, ahead of an area of two channels.
pub open spec fn stereo_mark() -> Seq<u8> {
    seq![0x54u8, 0x57, 0x4F, 0x43, 0x48, 0x54, 0x4F, 0x43]
}

/// MULCHTOC, ahead of an area of more.
pub open spec fn multichannel_mark() -> Seq<u8> {
    seq![0x4Du8, 0x55, 0x4C, 0x43, 0x48, 0x54, 0x4F, 0x43]
}

pub open spec fn time_bytes(time: Time) -> Seq<u8> {
    seq![time.minutes, time.seconds, time.frames]
}

/// The sectors of an area, of which one and no other lists places, and one and no other times.
/// Each list has its first column 8 bytes in, and its second 1028.
pub open spec fn lists(
    data: Seq<u8>,
    mark: Seq<u8>,
    channels: u8,
    places: Seq<Place>,
    listed: int,
    timed: int,
) -> bool {
    let sectors = data.len() as int / 2048;
    &&& mark == stereo_mark() || mark == multichannel_mark()
    &&& bytes::stands_at(data, 0, mark)
    &&& data[20] == 4
    &&& data[32] == channels
    &&& data[69] == places.len()
    &&& 1 <= listed < sectors
    &&& 1 <= timed < sectors
    &&& forall|k: int|
        1 <= k < sectors ==> (#[trigger] bytes::stands_at(data, k * 2048, places_mark()) == (k
            == listed))
    &&& forall|k: int|
        1 <= k < sectors ==> (#[trigger] bytes::stands_at(data, k * 2048, times_mark()) == (k
            == timed))
    &&& forall|i: int|
        #![trigger places[i]]
        0 <= i < places.len() ==> {
            &&& bytes::stands_at(
                data,
                listed * 2048 + 8 + i * 4,
                bytes::high_first(places[i].lsn as nat, 4),
            )
            &&& bytes::stands_at(
                data,
                listed * 2048 + 1028 + i * 4,
                bytes::high_first(places[i].sectors as nat, 4),
            )
            &&& bytes::stands_at(data, timed * 2048 + 8 + i * 4, time_bytes(places[i].start))
            &&& bytes::stands_at(data, timed * 2048 + 1028 + i * 4, time_bytes(places[i].length))
        }
}

/// Eight bytes stand where they are marked.
proof fn lemma_mark(data: Seq<u8>, at: int, mark: Seq<u8>)
    requires
        0 <= at,
        at + 8 <= data.len(),
        mark.len() == 8,
    ensures
        bytes::stands_at(data, at, mark) == (bytes::mark4(
            data,
            at,
            mark[0],
            mark[1],
            mark[2],
            mark[3],
        ) && bytes::mark4(data, at + 4, mark[4], mark[5], mark[6], mark[7])),
{
    if bytes::stands_at(data, at, mark) {
        assert(data[at + 0] == mark[0]);
        assert(data[at + 1] == mark[1]);
        assert(data[at + 2] == mark[2]);
        assert(data[at + 3] == mark[3]);
        assert(data[at + 4] == mark[4]);
        assert(data[at + 5] == mark[5]);
        assert(data[at + 6] == mark[6]);
        assert(data[at + 7] == mark[7]);
    }
}

/// The one marked sector is found.
proof fn lemma_found(data: Seq<u8>, index: int, mark: Mark, only: int)
    requires
        1 <= index,
        only * 2048 + 2048 <= data.len(),
        forall|k: int|
            index <= k && (k + 1) * 2048 <= data.len() ==> (#[trigger] toc::marked(
                data,
                k * 2048,
                mark,
            ) == (k == only)),
    ensures
        toc::sectors_marked(data, index, mark) == (if index <= only {
            seq![only * 2048]
        } else {
            Seq::<int>::empty()
        }),
    decreases data.len() - index * 2048,
{
    if (index + 1) * 2048 <= data.len() {
        lemma_found(data, index + 1, mark, only);
        let here = toc::marked(data, index * 2048, mark);
        assert(here == (index == only));
        assert(seq![index * 2048] + Seq::<int>::empty() =~= seq![index * 2048]);
    }
}

proof fn lemma_time(data: Seq<u8>, at: int, time: Time)
    requires
        bytes::stands_at(data, at, time_bytes(time)),
    ensures
        toc::timecode_at(data, at) == in_frames(time),
{
    let said = time_bytes(time);
    assert(data[at + 0] == said[0]);
    assert(data[at + 1] == said[1]);
    assert(data[at + 2] == said[2]);
}

proof fn lemma_lists(
    data: Seq<u8>,
    mark: Seq<u8>,
    channels: u8,
    places: Seq<Place>,
    listed: int,
    timed: int,
)
    requires
        lists(data, mark, channels, places, listed, timed),
    ensures
        toc::marked(data, 0, Mark::TwoChannel) || toc::marked(data, 0, Mark::Multichannel),
        toc::sectors_marked(data, 1, Mark::Places) == seq![listed * 2048],
        toc::sectors_marked(data, 1, Mark::Times) == seq![timed * 2048],
{
    lemma_mark(data, 0, mark);
    let sectors = data.len() as int / 2048;
    assert forall|k: int| 1 <= k && (k + 1) * 2048 <= data.len() implies (#[trigger] toc::marked(
        data,
        k * 2048,
        Mark::Places,
    ) == (k == listed)) by {
        assert(k < sectors);
        lemma_mark(data, k * 2048, places_mark());
    }
    assert forall|k: int| 1 <= k && (k + 1) * 2048 <= data.len() implies (#[trigger] toc::marked(
        data,
        k * 2048,
        Mark::Times,
    ) == (k == timed)) by {
        assert(k < sectors);
        lemma_mark(data, k * 2048, times_mark());
    }
    lemma_found(data, 1, Mark::Places, listed);
    lemma_found(data, 1, Mark::Times, timed);
}

/// A track list reads back: tracks in order, numbered from one, each where and when it was
/// written to be.
pub proof fn a_track_list_reads_back(
    data: Seq<u8>,
    mark: Seq<u8>,
    channels: u8,
    places: Seq<Place>,
    listed: int,
    timed: int,
)
    requires
        1 <= channels <= 6,
        1 <= places.len() <= 255,
        lists(data, mark, channels, places, listed, timed),
        forall|i: int|
            0 <= i < places.len() ==> (#[trigger] places[i]).lsn + places[i].sectors
                < 0x1_0000_0000,
    ensures
        ({
            &&& toc::area(data) matches Ok(area)
            &&& area.channels == channels
            &&& area.rate.0 == 2_822_400
            &&& area.tracks.len() == places.len()
            &&& forall|i: int|
                0 <= i < places.len() ==> {
                    let track = #[trigger] area.tracks[i];
                    &&& track.number == i + 1
                    &&& track.tags.track == Some((i + 1) as u32)
                    &&& track.start_lsn == places[i].lsn
                    &&& track.end_lsn == places[i].lsn + places[i].sectors
                    &&& track.start_frame == in_frames(places[i].start)
                    &&& track.frames == in_frames(places[i].length)
                }
        }),
{
    lemma_lists(data, mark, channels, places, listed, timed);
    let area = toc::area(data)->Ok_0;
    let count = places.len() as int;
    let texts = toc::sectors_marked(data, 1, Mark::TrackText);
    if texts.len() > 0 {
        toc::lemma_titled_len(
            data.skip(texts[0]),
            0,
            Seq::new(count as nat, |i: int| tags::no_tags()),
        );
    }
    assert(area.tracks.len() == count);
    assert forall|i: int| 0 <= i < count implies {
        let track = #[trigger] area.tracks[i];
        &&& track.number == i + 1
        &&& track.tags.track == Some((i + 1) as u32)
        &&& track.start_lsn == places[i].lsn
        &&& track.end_lsn == places[i].lsn + places[i].sectors
        &&& track.start_frame == in_frames(places[i].start)
        &&& track.frames == in_frames(places[i].length)
    } by {
        let place = places[i];
        let at = listed * 2048;
        let when = timed * 2048;
        bytes::numbers_read_back_high_first(data, at + 8 + i * 4, place.lsn as nat);
        bytes::numbers_read_back_high_first(data, at + 1028 + i * 4, place.sectors as nat);
        lemma_time(data, when + 8 + i * 4, place.start);
        lemma_time(data, when + 1028 + i * 4, place.length);
        assert(area.tracks[i] == toc::listed_tracks(
            data,
            at,
            when,
            toc::area_names(data, count),
        )[i]);
    }
}

/// A field of a track's text: 1 for its title, 2 for its performer, and other kinds for the rest.
pub struct Field {
    pub kind: u8,
    pub letters: Seq<u8>,
    /// How many zeros follow it.
    pub zeros: nat,
}

pub open spec fn is_field(field: Field) -> bool {
    &&& field.kind != 0
    &&& field.zeros >= 1
    &&& forall|i: int| 0 <= i < field.letters.len() ==> #[trigger] field.letters[i] != 0
}

pub open spec fn fields_bytes(fields: Seq<Field>) -> Seq<u8>
    decreases fields.len(),
{
    if fields.len() == 0 {
        Seq::empty()
    } else {
        seq![fields[0].kind, 0x20u8] + fields[0].letters + Seq::new(
            fields[0].zeros,
            |i: int| 0u8,
        ) + fields_bytes(fields.skip(1))
    }
}

/// The text of the last field of a kind, if there is one.
pub open spec fn last_of(fields: Seq<Field>, kind: u8, known: Option<Seq<char>>) -> Option<
    Seq<char>,
>
    decreases fields.len(),
{
    if fields.len() == 0 {
        known
    } else if fields.last().kind == kind {
        toc::disc_text(fields.last().letters)
    } else {
        last_of(fields.drop_last(), kind, known)
    }
}

proof fn lemma_last_of(fields: Seq<Field>, kind: u8, known: Option<Seq<char>>)
    requires
        fields.len() > 0,
    ensures
        last_of(fields, kind, known) == last_of(
            fields.skip(1),
            kind,
            if fields[0].kind == kind {
                toc::disc_text(fields[0].letters)
            } else {
                known
            },
        ),
    decreases fields.len(),
{
    if fields.len() == 1 {
        assert(fields.skip(1).len() == 0);
        assert(fields.drop_last().len() == 0);
    } else {
        assert(fields.skip(1).last() == fields.last());
        if fields.last().kind != kind {
            lemma_last_of(fields.drop_last(), kind, known);
            assert(fields.drop_last().skip(1) =~= fields.skip(1).drop_last());
        }
    }
}

proof fn lemma_nul(block: Seq<u8>, from: int, at: int)
    requires
        0 <= from <= at < block.len(),
        block[at] == 0,
        forall|i: int| from <= i < at ==> #[trigger] block[i] != 0,
    ensures
        tags::nul_at(block, from) == at,
    decreases at - from,
{
    if from < at {
        lemma_nul(block, from + 1, at);
    }
}

proof fn lemma_past_zeros(block: Seq<u8>, from: int, at: int)
    requires
        0 <= from <= at <= block.len(),
        at < block.len() ==> block[at] != 0,
        forall|i: int| from <= i < at ==> #[trigger] block[i] == 0,
    ensures
        toc::past_zeros(block, from) == at,
    decreases at - from,
{
    if from < at {
        lemma_past_zeros(block, from + 1, at);
    }
}

/// A track's text reads back: its title and its performer are those of the last field of their
/// kind, and fields of other kinds change nothing.
pub proof fn a_track_text_reads_back(block: Seq<u8>, at: int, fields: Seq<Field>, known: Tags)
    requires
        forall|i: int| 0 <= i < fields.len() ==> is_field(#[trigger] fields[i]),
        bytes::stands_at(block, at, fields_bytes(fields)),
        at + fields_bytes(fields).len() < block.len() ==> block[at + fields_bytes(fields).len()]
            != 0,
    ensures
        toc::fields_read(block, at, fields.len() as int, known) == (
            Tags {
                title: last_of(fields, 1, known.title),
                artist: last_of(fields, 2, known.artist),
                ..known
            },
            true,
        ),
    decreases fields.len(),
{
    if fields.len() == 0 {
    } else {
        let field = fields[0];
        let rest = fields.skip(1);
        let mark = seq![field.kind, 0x20u8];
        let zeros = Seq::new(field.zeros, |i: int| 0u8);
        assert(is_field(field));
        bytes::lemma_stands(block, at, mark + field.letters + zeros, fields_bytes(rest));
        bytes::lemma_stands(block, at, mark + field.letters, zeros);
        bytes::lemma_stands(block, at, mark, field.letters);
        let start = at + 2;
        let end = start + field.letters.len();
        let next = end + field.zeros;
        assert(block[at + 0] == mark[0]);
        assert(block[end + 0] == zeros[0]);
        assert forall|i: int| start <= i < end implies #[trigger] block[i] != 0 by {
            assert(block[start + (i - start)] == field.letters[i - start]);
        }
        lemma_nul(block, start, end);
        let read = block.subrange(start, end);
        assert forall|i: int| 0 <= i < field.letters.len() implies read[i] == field.letters[i] by {
            assert(block[start + i] == field.letters[i]);
        }
        assert(read =~= field.letters);
        assert forall|i: int| end <= i < next implies #[trigger] block[i] == 0 by {
            assert(block[end + (i - end)] == zeros[i - end]);
        }
        if rest.len() > 0 {
            let more = fields_bytes(rest);
            assert(rest[0] == fields[1]);
            assert(is_field(fields[1]));
            assert(more[0] == rest[0].kind);
            assert(block[next + 0] == more[0]);
        }
        lemma_past_zeros(block, end, next);
        assert forall|i: int| 0 <= i < rest.len() implies is_field(#[trigger] rest[i]) by {
            assert(rest[i] == fields[i + 1]);
        }
        let found = toc::disc_text(field.letters);
        let after = if field.kind == 1 {
            Tags { title: found, ..known }
        } else if field.kind == 2 {
            Tags { artist: found, ..known }
        } else {
            known
        };
        a_track_text_reads_back(block, next, rest, after);
        lemma_last_of(fields, 1, known.title);
        lemma_last_of(fields, 2, known.artist);
    }
}

/// Text in UTF-8 reads as it was written, without the white space around it.
pub proof fn a_text_reads_back(letters: Seq<char>)
    requires
        letters.len() > 0,
        !text::is_space(letters[0]),
        !text::is_space(letters.last()),
    ensures
        toc::disc_text(utf8::encode_utf8(letters)) == Some(letters),
{
    utf8::encode_utf8_valid_utf8(letters);
    utf8::encode_utf8_decode_utf8(letters);
    assert(text::trimmed(letters) == letters);
}

/// A disc plays its two-channel area where it has one, in either place, and the other where it
/// has not.
pub proof fn the_area_played_is_the_one_of_two_channels(
    image: Seq<u8>,
    master: Seq<u8>,
    first: AreaListing,
    second: AreaListing,
)
    requires
        master.len() >= 88,
    ensures
        ({
            let one = toc::area_at(image, bytes::be32(master, 64), bytes::be16(master, 84));
            let other = toc::area_at(image, bytes::be32(master, 72), bytes::be16(master, 86));
            let chosen = toc::chosen_area(image, master);
            let here = Ok::<Option<AreaListing>, TocError>(Some(first));
            let there = Ok::<Option<AreaListing>, TocError>(Some(second));
            let none = Ok::<Option<AreaListing>, TocError>(None);
            &&& one == here && first.channels == 2 ==> chosen == Ok::<AreaListing, TocError>(first)
            &&& one == here && first.channels != 2 && other == there && second.channels == 2
                ==> chosen == Ok::<AreaListing, TocError>(second)
            &&& one == here && other == there && first.channels != 2 && second.channels != 2
                ==> chosen == Ok::<AreaListing, TocError>(first)
            &&& one == here && other == none ==> chosen == Ok::<AreaListing, TocError>(first)
            &&& one == none && other == there ==> chosen == Ok::<AreaListing, TocError>(second)
            &&& one == none && other == none ==> chosen == Err::<AreaListing, TocError>(
                TocError::NoArea,
            )
        }),
{
}

/// A text block: for each track where its text stands, or zero; there, how many fields there are,
/// and four bytes in, the fields.
pub open spec fn names_tracks(
    block: Seq<u8>,
    places: Seq<nat>,
    texts: Seq<Seq<Field>>,
) -> bool {
    &&& places.len() == texts.len()
    &&& forall|i: int|
        #![trigger places[i]]
        0 <= i < places.len() ==> {
            &&& places[i] < 0x1_0000
            &&& bytes::stands_at(block, 8 + i * 2, bytes::high_first(places[i], 2))
            &&& places[i] != 0 ==> {
                let at = places[i] as int + 4;
                let end = at + fields_bytes(texts[i]).len();
                &&& places[i] < block.len()
                &&& block[places[i] as int] == texts[i].len()
                &&& bytes::stands_at(block, at, fields_bytes(texts[i]))
                &&& end < block.len() ==> block[end] != 0
                &&& forall|f: int| 0 <= f < texts[i].len() ==> is_field(#[trigger] texts[i][f])
            }
        }
}

proof fn lemma_titled(
    block: Seq<u8>,
    places: Seq<nat>,
    texts: Seq<Seq<Field>>,
    index: int,
    known: Seq<Tags>,
)
    requires
        names_tracks(block, places, texts),
        known.len() == places.len(),
        0 <= index <= known.len(),
    ensures
        toc::titled(block, index, known).len() == known.len(),
        forall|i: int|
            0 <= i < known.len() ==> (#[trigger] toc::titled(block, index, known)[i]) == (if i
                < index || places[i] == 0 {
                known[i]
            } else {
                Tags {
                    title: last_of(texts[i], 1, known[i].title),
                    artist: last_of(texts[i], 2, known[i].artist),
                    ..known[i]
                }
            }),
    decreases known.len() - index,
{
    if index < known.len() {
        let place = places[index];
        bytes::numbers_read_back_high_first(block, 8 + index * 2, place);
        if place == 0 {
            lemma_titled(block, places, texts, index + 1, known);
        } else {
            a_track_text_reads_back(block, place as int + 4, texts[index], known[index]);
            let found = Tags {
                title: last_of(texts[index], 1, known[index].title),
                artist: last_of(texts[index], 2, known[index].artist),
                ..known[index]
            };
            let next = known.update(index, found);
            lemma_titled(block, places, texts, index + 1, next);
        }
    }
}

/// Each track goes by the text that its entry in the block's index leads to, and a track without
/// one has no name.
pub proof fn tracks_go_by_their_own_text(
    block: Seq<u8>,
    places: Seq<nat>,
    texts: Seq<Seq<Field>>,
    track: int,
)
    requires
        names_tracks(block, places, texts),
        0 <= track < places.len(),
    ensures
        ({
            let blank = Seq::new(places.len(), |i: int| tags::no_tags());
            let read = toc::titled(block, 0, blank)[track];
            &&& read.title == (if places[track] == 0 {
                None
            } else {
                last_of(texts[track], 1, None)
            })
            &&& read.artist == (if places[track] == 0 {
                None
            } else {
                last_of(texts[track], 2, None)
            })
        }),
{
    let blank = Seq::new(places.len(), |i: int| tags::no_tags());
    lemma_titled(block, places, texts, 0, blank);
    assert(blank[track] == tags::no_tags());
}

/// A disc's contents are read from its master table, ten sectors from the 510th on.
pub proof fn contents_are_read_from_the_master_table(image: Seq<u8>)
    requires
        image.len() >= 520 * 2048,
    ensures
        ({
            let master = image.subrange(510int * 2048, 520int * 2048);
            let mark = seq![0x53u8, 0x41, 0x43, 0x44, 0x4D, 0x54, 0x4F, 0x43];
            &&& bytes::stands_at(master, 0, mark) ==> (match toc::contents(image) {
                Ok(contents) => toc::chosen_area(image, master) == Ok::<AreaListing, TocError>(
                    contents.area,
                ),
                Err(error) => toc::chosen_area(image, master) == Err::<AreaListing, TocError>(error),
            })
            &&& !bytes::stands_at(master, 0, mark) ==> toc::contents(image) == Err::<
                toc::Contents,
                TocError,
            >(TocError::NoMasterToc)
        }),
{
    reveal(toc::contents);
    let master = image.subrange(510int * 2048, 520int * 2048);
    lemma_mark(master, 0, seq![0x53u8, 0x41, 0x43, 0x44, 0x4D, 0x54, 0x4F, 0x43]);
}

/// SACDText, ahead of what the disc is called.
pub open spec fn text_mark() -> Seq<u8> {
    seq![0x53u8, 0x41, 0x43, 0x44, 0x54, 0x65, 0x78, 0x74]
}

/// A disc goes by its album's title and artist, and by its own where the album has none. Where
/// each stands is in the block that says what the disc is called: the album's 16 and 18 bytes in,
/// and its own 32 and 34.
pub proof fn a_disc_goes_by_its_album_first(master: Seq<u8>, sector: int, places: Seq<nat>)
    requires
        0 <= sector,
        sector * 2048 + 2048 <= master.len(),
        forall|k: int|
            0 <= k && (k + 1) * 2048 <= master.len() ==> (#[trigger] bytes::stands_at(
                master,
                k * 2048,
                text_mark(),
            ) == (k == sector)),
        places.len() == 4,
        forall|i: int| 0 <= i < 4 ==> #[trigger] places[i] < 0x1_0000,
        ({
            let block = master.subrange(sector * 2048, sector * 2048 + 2048);
            &&& bytes::stands_at(block, 16, bytes::high_first(places[0], 2))
            &&& bytes::stands_at(block, 18, bytes::high_first(places[1], 2))
            &&& bytes::stands_at(block, 32, bytes::high_first(places[2], 2))
            &&& bytes::stands_at(block, 34, bytes::high_first(places[3], 2))
        }),
    ensures
        ({
            let block = master.subrange(sector * 2048, sector * 2048 + 2048);
            let (album, artist) = toc::master_names(master);
            let title = toc::text_at(block, places[0] as int);
            let name = toc::text_at(block, places[1] as int);
            &&& title is Some ==> album == title
            &&& title is None ==> album == toc::text_at(block, places[2] as int)
            &&& name is Some ==> artist == name
            &&& name is None ==> artist == toc::text_at(block, places[3] as int)
        }),
{
    let block = master.subrange(sector * 2048, sector * 2048 + 2048);
    assert forall|k: int| 0 <= k && (k + 1) * 2048 <= master.len() implies (
    #[trigger] toc::marked(master, k * 2048, Mark::Text) == (k == sector)) by {
        lemma_mark(master, k * 2048, text_mark());
    }
    lemma_found_from_first(master, Mark::Text, sector);
    assert(places[0] < 0x1_0000 && places[1] < 0x1_0000 && places[2] < 0x1_0000 && places[3]
        < 0x1_0000);
    bytes::numbers_read_back_high_first(block, 16, places[0]);
    bytes::numbers_read_back_high_first(block, 18, places[1]);
    bytes::numbers_read_back_high_first(block, 32, places[2]);
    bytes::numbers_read_back_high_first(block, 34, places[3]);
}

proof fn lemma_found_from_first(data: Seq<u8>, mark: Mark, only: int)
    requires
        0 <= only,
        only * 2048 + 2048 <= data.len(),
        forall|k: int|
            0 <= k && (k + 1) * 2048 <= data.len() ==> (#[trigger] toc::marked(
                data,
                k * 2048,
                mark,
            ) == (k == only)),
    ensures
        toc::sectors_marked(data, 0, mark) == seq![only * 2048],
{
    lemma_found(data, 1, mark, only);
    assert(toc::marked(data, 0int * 2048, mark) == (0 == only));
    assert(seq![0int] + Seq::<int>::empty() =~= seq![0int]);
}

/// Text stands from its place up to the first zero behind it.
pub proof fn a_text_ends_at_a_zero(block: Seq<u8>, at: int, letters: Seq<u8>)
    requires
        bytes::stands_at(block, at, letters.push(0)),
        forall|i: int| 0 <= i < letters.len() ==> #[trigger] letters[i] != 0,
    ensures
        toc::text_at(block, at) == toc::disc_text(letters),
{
    let whole = letters.push(0);
    let end = at + letters.len();
    assert(block[end] == 0) by {
        assert(block[at + letters.len()] == whole[letters.len() as int]);
    }
    assert forall|i: int| at <= i < end implies #[trigger] block[i] != 0 by {
        assert(block[at + (i - at)] == whole[i - at]);
        assert(whole[i - at] == letters[i - at]);
    }
    lemma_nul(block, at, end);
    let read = block.subrange(at, end);
    assert forall|i: int| 0 <= i < letters.len() implies read[i] == letters[i] by {
        assert(block[at + i] == whole[i]);
    }
    assert(read =~= letters);
}

/// An area is refused where it is not marked as one, where its rate is not that of DSD64, where
/// its channels are not from one to six, and where it has no tracks.
pub proof fn an_area_is_refused_for_what_it_says(data: Seq<u8>)
    requires
        data.len() >= 2048,
    ensures
        toc::area(data) is Ok ==> {
            &&& bytes::stands_at(data, 0, stereo_mark()) || bytes::stands_at(
                data,
                0,
                multichannel_mark(),
            )
            &&& data[20] == 4
            &&& 1 <= data[32] <= 6
            &&& data[69] > 0
        },
        bytes::stands_at(data, 0, stereo_mark()) && data[20] != 4 ==> toc::area(data) == Err::<
            AreaListing,
            TocError,
        >(TocError::Frequency { code: data[20] }),
{
    lemma_mark(data, 0, stereo_mark());
    lemma_mark(data, 0, multichannel_mark());
}

} // verus!
