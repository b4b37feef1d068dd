//! ID3v2 tags as they are written, and what is read of them.

use crate::bytes;
use crate::reader::tags;
use crate::reader::tags::Tags;
use crate::text;
use vstd::prelude::*;

verus! {

/// A frame of a tag: the mark that says what it is, what its second flag byte says of its data,
/// and the data.
pub struct Frame {
    pub mark: Seq<u8>,
    pub flags: u8,
    pub data: Seq<u8>,
}

/// A number in four bytes of seven bits each, the highest first.
pub open spec fn septets(value: nat) -> Seq<u8> {
    seq![
        (value / 0x20_0000 % 128) as u8,
        (value / 0x4000 % 128) as u8,
        (value / 0x80 % 128) as u8,
        (value % 128) as u8,
    ]
}

/// The header of a frame: a mark of three bytes and a size of three in ID3v2.2; a mark of four, a
/// size of four and two of flags after it, where 2.4 keeps the highest bit of every size byte
/// clear.
pub open spec fn header_bytes(version: u8, frame: Frame) -> Seq<u8> {
    if version == 2 {
        frame.mark + bytes::high_first(frame.data.len(), 3)
    } else if version == 3 {
        frame.mark + bytes::high_first(frame.data.len(), 4) + seq![0u8, frame.flags]
    } else {
        frame.mark + septets(frame.data.len()) + seq![0u8, frame.flags]
    }
}

pub open spec fn frames_bytes(version: u8, frames: Seq<Frame>) -> Seq<u8>
    decreases frames.len(),
{
    if frames.len() == 0 {
        Seq::empty()
    } else {
        header_bytes(version, frames[0]) + frames[0].data + frames_bytes(version, frames.skip(1))
    }
}

/// A frame that can be written.
pub open spec fn writable(version: u8, frame: Frame) -> bool {
    &&& frame.mark.len() == (if version == 2 {
        3int
    } else {
        4
    })
    &&& frame.mark[0] != 0
    &&& frame.data.len() < (if version == 2 {
        0x100_0000int
    } else if version == 3 {
        0x1_0000_0000
    } else {
        0x1000_0000
    })
}

/// TT2, or TIT2.
pub open spec fn title_mark(version: u8) -> Seq<u8> {
    if version == 2 {
        seq![0x54u8, 0x54, 0x32]
    } else {
        seq![0x54u8, 0x49, 0x54, 0x32]
    }
}

/// TP1, or TPE1.
pub open spec fn artist_mark(version: u8) -> Seq<u8> {
    if version == 2 {
        seq![0x54u8, 0x50, 0x31]
    } else {
        seq![0x54u8, 0x50, 0x45, 0x31]
    }
}

/// TAL, or TALB.
pub open spec fn album_mark(version: u8) -> Seq<u8> {
    if version == 2 {
        seq![0x54u8, 0x41, 0x4C]
    } else {
        seq![0x54u8, 0x41, 0x4C, 0x42]
    }
}

/// TRK, or TRCK.
pub open spec fn track_mark(version: u8) -> Seq<u8> {
    if version == 2 {
        seq![0x54u8, 0x52, 0x4B]
    } else {
        seq![0x54u8, 0x52, 0x43, 0x4B]
    }
}

/// The text of a frame, if its flags let it be read and it has any.
pub open spec fn text_of(version: u8, frame: Frame) -> Option<Seq<char>> {
    match tags::frame_data(
        version,
        if version == 2 {
            0
        } else {
            frame.flags
        },
        frame.data,
    ) {
        Some(data) => tags::frame_text(data),
        None => None,
    }
}

/// The text of the last frame of a mark that has any.
pub open spec fn last_text(version: u8, frames: Seq<Frame>, mark: Seq<u8>) -> Option<Seq<char>>
    decreases frames.len(),
{
    if frames.len() == 0 {
        None
    } else if frames.last().mark == mark && text_of(version, frames.last()) is Some {
        text_of(version, frames.last())
    } else {
        last_text(version, frames.drop_last(), mark)
    }
}

proof fn lemma_last_text(version: u8, frames: Seq<Frame>, mark: Seq<u8>)
    requires
        frames.len() > 0,
    ensures
        last_text(version, frames, mark) == (match last_text(version, frames.skip(1), mark) {
            Some(text) => Some(text),
            None => if frames[0].mark == mark {
                text_of(version, frames[0])
            } else {
                None
            },
        }),
    decreases frames.len(),
{
    if frames.len() == 1 {
        assert(frames.skip(1) =~= Seq::empty());
        assert(frames.drop_last() =~= Seq::empty());
        assert(last_text(version, frames.drop_last(), mark) is None);
    } else {
        assert(frames.skip(1).last() == frames.last());
        assert(frames.skip(1).drop_last() =~= frames.drop_last().skip(1));
        if !(frames.last().mark == mark && text_of(version, frames.last()) is Some) {
            lemma_last_text(version, frames.drop_last(), mark);
        }
    }
}

/// What frames add to the tags there were.
spec fn frames_tags(version: u8, frames: Seq<Frame>, known: Tags) -> Tags {
    Tags {
        title: match last_text(version, frames, title_mark(version)) {
            Some(text) => Some(text),
            None => known.title,
        },
        artist: match last_text(version, frames, artist_mark(version)) {
            Some(text) => Some(text),
            None => known.artist,
        },
        album: match last_text(version, frames, album_mark(version)) {
            Some(text) => Some(text),
            None => known.album,
        },
        track: match last_text(version, frames, track_mark(version)) {
            Some(text) => tags::track_number(text),
            None => known.track,
        },
    }
}

proof fn lemma_septets(data: Seq<u8>, at: int, value: nat)
    requires
        value < 0x1000_0000,
        bytes::stands_at(data, at, septets(value)),
    ensures
        tags::syncsafe(data, at) == value,
{
    let part = septets(value);
    assert(data[at + 0] == part[0]);
    assert(data[at + 1] == part[1]);
    assert(data[at + 2] == part[2]);
    assert(data[at + 3] == part[3]);
    assert(value / 0x4000 == value / 0x80 / 0x80);
    assert(value / 0x20_0000 == value / 0x4000 / 0x80);
}

/// What is read of a frame's header where it stands.
proof fn lemma_header(version: u8, body: Seq<u8>, at: int, frame: Frame)
    requires
        2 <= version <= 4,
        writable(version, frame),
        bytes::stands_at(body, at, header_bytes(version, frame) + frame.data),
    ensures
        header_bytes(version, frame).len() == tags::frame_header_len(version),
        body[at] != 0,
        tags::frame_size_at(version, body, at + tags::id_len(version)) == frame.data.len(),
        version != 2 ==> body[at + 9] == frame.flags,
        body.subrange(
            at + tags::frame_header_len(version),
            at + tags::frame_header_len(version) + frame.data.len(),
        ) == frame.data,
        tags::field_at(version, body, at) == (if frame.mark == title_mark(version) {
            Some(tags::Field::Title)
        } else if frame.mark == artist_mark(version) {
            Some(tags::Field::Artist)
        } else if frame.mark == album_mark(version) {
            Some(tags::Field::Album)
        } else if frame.mark == track_mark(version) {
            Some(tags::Field::Track)
        } else {
            None
        }),
{
    let head = header_bytes(version, frame);
    let size = if version == 2 {
        bytes::high_first(frame.data.len(), 3)
    } else if version == 3 {
        bytes::high_first(frame.data.len(), 4)
    } else {
        septets(frame.data.len())
    };
    let flags = if version == 2 {
        Seq::empty()
    } else {
        seq![0u8, frame.flags]
    };
    bytes::lemma_high_first(frame.data.len());
    assert(head =~= frame.mark + (size + flags));
    bytes::lemma_stands(body, at, head, frame.data);
    bytes::lemma_stands(body, at, frame.mark, size + flags);
    bytes::lemma_stands(body, at + frame.mark.len(), size, flags);
    bytes::numbers_read_back_high_first(body, at + frame.mark.len(), frame.data.len());
    if version == 4 {
        lemma_septets(body, at + 4, frame.data.len());
    }
    if version != 2 {
        assert(body[at + 8 + 1] == flags[1]);
    }
    let read = body.subrange(at + head.len(), at + head.len() + frame.data.len());
    assert forall|i: int| 0 <= i < frame.data.len() implies read[i] == frame.data[i] by {
        assert(body[at + head.len() + i] == frame.data[i]);
    }
    assert(read =~= frame.data);
    lemma_mark(version, body, at, frame.mark);
}

proof fn lemma_mark(version: u8, body: Seq<u8>, at: int, mark: Seq<u8>)
    requires
        mark.len() == (if version == 2 {
            3int
        } else {
            4
        }),
        bytes::stands_at(body, at, mark),
    ensures
        body[at] == mark[0],
        tags::field_at(version, body, at) == (if mark == title_mark(version) {
            Some(tags::Field::Title)
        } else if mark == artist_mark(version) {
            Some(tags::Field::Artist)
        } else if mark == album_mark(version) {
            Some(tags::Field::Album)
        } else if mark == track_mark(version) {
            Some(tags::Field::Track)
        } else {
            None
        }),
{
    assert(body[at + 0] == mark[0]);
    assert(body[at + 1] == mark[1]);
    assert(body[at + 2] == mark[2]);
    if version != 2 {
        assert(body[at + 3] == mark[3]);
    }
    if tags::field_at(version, body, at) == Some(tags::Field::Title) {
        assert(mark =~= title_mark(version));
    }
    if tags::field_at(version, body, at) == Some(tags::Field::Artist) {
        assert(mark =~= artist_mark(version));
    }
    if tags::field_at(version, body, at) == Some(tags::Field::Album) {
        assert(mark =~= album_mark(version));
    }
    if tags::field_at(version, body, at) == Some(tags::Field::Track) {
        assert(mark =~= track_mark(version));
    }
    lemma_marks(version);
}

/// The four marks differ.
proof fn lemma_marks(version: u8)
    ensures
        title_mark(version) != artist_mark(version),
        title_mark(version) != album_mark(version),
        title_mark(version) != track_mark(version),
        artist_mark(version) != album_mark(version),
        artist_mark(version) != track_mark(version),
        album_mark(version) != track_mark(version),
{
    assert(title_mark(version)[1] != artist_mark(version)[1]);
    assert(title_mark(version)[1] != album_mark(version)[1]);
    assert(title_mark(version)[1] != track_mark(version)[1]);
    assert(artist_mark(version)[1] != album_mark(version)[1]);
    assert(artist_mark(version)[1] != track_mark(version)[1]);
    assert(album_mark(version)[1] != track_mark(version)[1]);
}

proof fn lemma_frames(
    version: u8,
    body: Seq<u8>,
    at: int,
    frames: Seq<Frame>,
    padding: Seq<u8>,
    known: Tags,
)
    requires
        2 <= version <= 4,
        forall|i: int| 0 <= i < frames.len() ==> writable(version, #[trigger] frames[i]),
        padding.len() > 0 ==> padding[0] == 0,
        bytes::stands_at(body, at, frames_bytes(version, frames) + padding),
        body.len() == at + frames_bytes(version, frames).len() + padding.len(),
    ensures
        tags::framed_tags(version, body, at, known) == frames_tags(version, frames, known),
    decreases frames.len(),
{
    if frames.len() == 0 {
        assert(frames_bytes(version, frames) + padding =~= padding);
        if padding.len() > 0 {
            assert(body[at + 0] == padding[0]);
        }
        assert(frames_tags(version, frames, known) =~= known);
    } else {
        let frame = frames[0];
        let rest = frames.skip(1);
        let own = header_bytes(version, frame) + frame.data;
        assert(writable(version, frame));
        assert(frames_bytes(version, frames) + padding =~= own + (frames_bytes(version, rest)
            + padding));
        bytes::lemma_stands(body, at, own, frames_bytes(version, rest) + padding);
        lemma_header(version, body, at, frame);
        assert forall|i: int| 0 <= i < rest.len() implies writable(version, #[trigger] rest[i]) by {
            assert(rest[i] == frames[i + 1]);
        }
        lemma_marks(version);
        let next = match text_of(version, frame) {
            None => known,
            Some(text) => if frame.mark == title_mark(version) {
                Tags { title: Some(text), ..known }
            } else if frame.mark == artist_mark(version) {
                Tags { artist: Some(text), ..known }
            } else if frame.mark == album_mark(version) {
                Tags { album: Some(text), ..known }
            } else if frame.mark == track_mark(version) {
                Tags { track: tags::track_number(text), ..known }
            } else {
                known
            },
        };
        assert(tags::framed_tags(version, body, at, known) == tags::framed_tags(
            version,
            body,
            at + own.len(),
            next,
        ));
        lemma_frames(version, body, at + own.len(), rest, padding, next);
        lemma_last_text(version, frames, title_mark(version));
        lemma_last_text(version, frames, artist_mark(version));
        lemma_last_text(version, frames, album_mark(version));
        lemma_last_text(version, frames, track_mark(version));
        assert(frames_tags(version, frames, known) =~= frames_tags(version, rest, next));
    }
}

/// What a list of frames says: the title, the artist, the album and the track number are those of
/// the last frame of that mark that has text, wherever it stands among the others.
pub open spec fn says(version: u8, frames: Seq<Frame>, read: Tags) -> bool {
    &&& read.title == last_text(version, frames, title_mark(version))
    &&& read.artist == last_text(version, frames, artist_mark(version))
    &&& read.album == last_text(version, frames, album_mark(version))
    &&& read.track == (match last_text(version, frames, track_mark(version)) {
        Some(text) => tags::track_number(text),
        None => None,
    })
}

/// Frames one after the other, and padding behind them, read as what each of the four fields'
/// last frame says.
pub proof fn frames_read_back(version: u8, frames: Seq<Frame>, padding: Seq<u8>)
    requires
        2 <= version <= 4,
        forall|i: int| 0 <= i < frames.len() ==> writable(version, #[trigger] frames[i]),
        padding.len() > 0 ==> padding[0] == 0,
    ensures
        says(
            version,
            frames,
            tags::framed_tags(
                version,
                frames_bytes(version, frames) + padding,
                0,
                tags::no_tags(),
            ),
        ),
{
    let body = frames_bytes(version, frames) + padding;
    assert(bytes::stands_at(body, 0, body));
    lemma_frames(version, body, 0, frames, padding, tags::no_tags());
}

proof fn lemma_around(
    version: u8,
    before: Seq<Frame>,
    frame: Frame,
    after: Seq<Frame>,
    mark: Seq<u8>,
)
    requires
        frame.mark != mark,
    ensures
        last_text(version, before + seq![frame] + after, mark) == last_text(
            version,
            before + after,
            mark,
        ),
    decreases after.len(),
{
    if after.len() == 0 {
        assert((before + seq![frame] + after).drop_last() =~= before);
        assert(before + after =~= before);
    } else {
        assert((before + seq![frame] + after).drop_last() =~= before + seq![frame]
            + after.drop_last());
        assert((before + after).drop_last() =~= before + after.drop_last());
        lemma_around(version, before, frame, after.drop_last(), mark);
    }
}

/// A frame of any other mark -- a genre, a year, artwork -- changes nothing, wherever among the
/// others it stands.
pub proof fn a_frame_of_another_mark_is_stepped_over(
    version: u8,
    before: Seq<Frame>,
    frame: Frame,
    after: Seq<Frame>,
    padding: Seq<u8>,
)
    requires
        2 <= version <= 4,
        forall|i: int| 0 <= i < before.len() ==> writable(version, #[trigger] before[i]),
        forall|i: int| 0 <= i < after.len() ==> writable(version, #[trigger] after[i]),
        writable(version, frame),
        padding.len() > 0 ==> padding[0] == 0,
        frame.mark != title_mark(version),
        frame.mark != artist_mark(version),
        frame.mark != album_mark(version),
        frame.mark != track_mark(version),
    ensures
        tags::framed_tags(
            version,
            frames_bytes(version, before + seq![frame] + after) + padding,
            0,
            tags::no_tags(),
        ) == tags::framed_tags(
            version,
            frames_bytes(version, before + after) + padding,
            0,
            tags::no_tags(),
        ),
{
    let whole = before + seq![frame] + after;
    let without = before + after;
    assert forall|i: int| 0 <= i < whole.len() implies writable(version, #[trigger] whole[i]) by {
        if i < before.len() {
            assert(whole[i] == before[i]);
        } else if i > before.len() {
            assert(whole[i] == after[i - before.len() - 1]);
        }
    }
    assert forall|i: int| 0 <= i < without.len() implies writable(
        version,
        #[trigger] without[i],
    ) by {
        if i < before.len() {
            assert(without[i] == before[i]);
        } else {
            assert(without[i] == after[i - before.len()]);
        }
    }
    frames_read_back(version, whole, padding);
    frames_read_back(version, without, padding);
    lemma_around(version, before, frame, after, title_mark(version));
    lemma_around(version, before, frame, after, artist_mark(version));
    lemma_around(version, before, frame, after, album_mark(version));
    lemma_around(version, before, frame, after, track_mark(version));
}

/// A tag as it stands in a file: ID3, its version, a byte of flags that says whether every 0xFF
/// has been kept from looking like a sync by a zero behind it, its size, and its frames.
pub open spec fn tag_bytes(version: u8, body: Seq<u8>, unsynchronised: bool) -> Seq<u8> {
    let held = if unsynchronised {
        tags::unsynchronised(body)
    } else {
        body
    };
    seq![0x49u8, 0x44, 0x33, version, 0, if unsynchronised { 0x80u8 } else { 0u8 }] + septets(
        held.len(),
    ) + held
}

/// What is read of a tag's header where it stands.
proof fn lemma_tag(file: Seq<u8>, at: int, version: u8, flag: u8, held: Seq<u8>)
    requires
        held.len() <= 0x40_0000,
        bytes::stands_at(
            file,
            at,
            seq![0x49u8, 0x44, 0x33, version, 0, flag] + septets(held.len()) + held,
        ),
    ensures
        tags::id3_tags(file, at) == tags::body_tags(version, flag, held),
{
    let head = seq![0x49u8, 0x44, 0x33, version, 0, flag];
    let size = septets(held.len());
    bytes::lemma_stands(file, at, head + size, held);
    bytes::lemma_stands(file, at, head, size);
    assert(head[0] == 0x49 && head[1] == 0x44 && head[2] == 0x33 && head[3] == version && head[5]
        == flag);
    assert(file[at + 0] == head[0]);
    assert(file[at + 1] == head[1]);
    assert(file[at + 2] == head[2]);
    assert(file[at + 3] == head[3]);
    assert(file[at + 5] == head[5]);
    lemma_septets(file, at + 6, held.len());
    let read = file.subrange(at + 10, at + 10 + held.len());
    assert forall|i: int| 0 <= i < held.len() implies read[i] == held[i] by {
        assert(file[at + (head + size).len() + i] == held[i]);
    }
    assert(read =~= held);
}

/// A tag reads back as its frames wherever in a file it stands, with its body kept from looking
/// like a sync or as it is.
pub proof fn a_tag_reads_back_as_its_frames(
    version: u8,
    frames: Seq<Frame>,
    padding: Seq<u8>,
    unsynchronised: bool,
    before: Seq<u8>,
    after: Seq<u8>,
)
    requires
        2 <= version <= 4,
        forall|i: int| 0 <= i < frames.len() ==> writable(version, #[trigger] frames[i]),
        padding.len() > 0 ==> padding[0] == 0,
        ({
            let body = frames_bytes(version, frames) + padding;
            if unsynchronised {
                tags::unsynchronised(body).len() <= 0x40_0000
            } else {
                body.len() <= 0x40_0000
            }
        }),
    ensures
        says(
            version,
            frames,
            tags::id3_tags(
                before + tag_bytes(
                    version,
                    frames_bytes(version, frames) + padding,
                    unsynchronised,
                ) + after,
                before.len() as int,
            ),
        ),
{
    let body = frames_bytes(version, frames) + padding;
    let held = if unsynchronised {
        tags::unsynchronised(body)
    } else {
        body
    };
    let flag = if unsynchronised {
        0x80u8
    } else {
        0u8
    };
    let tag = tag_bytes(version, body, unsynchronised);
    let file = before + tag + after;
    let at = before.len() as int;
    assert(bytes::stands_at(file, at, tag)) by {
        assert forall|i: int| 0 <= i < tag.len() implies file[at + i] == #[trigger] tag[i] by {}
    }
    lemma_tag(file, at, version, flag, held);
    tags::desynchronising_restores_the_body(body);
    assert(body.skip(0) =~= body);
    frames_read_back(version, frames, padding);
}

/// Text that stands in Latin-1 and has no white space around it.
pub open spec fn is_plain(words: Seq<u8>) -> bool {
    &&& words.len() > 0
    &&& !text::is_space(words[0] as char)
    &&& !text::is_space(words.last() as char)
    &&& forall|i: int| 0 <= i < words.len() ==> #[trigger] words[i] != 0
}

/// A text frame in Latin-1 says its text, byte for character, whatever zeros follow it. So does
/// one of ID3v2.4 whose data starts with its own length and says so in its flags, and one that
/// is compressed or encrypted says nothing.
pub proof fn a_latin_frame_says_its_text(
    version: u8,
    mark: Seq<u8>,
    words: Seq<u8>,
    zeros: Seq<u8>,
    size: Seq<u8>,
)
    requires
        2 <= version <= 4,
        is_plain(words),
        forall|i: int| 0 <= i < zeros.len() ==> #[trigger] zeros[i] == 0,
        size.len() == 4,
    ensures
        ({
            let data = seq![0u8] + words + zeros;
            let said = Seq::new(words.len(), |i: int| words[i] as char);
            &&& text_of(version, Frame { mark, flags: 0, data }) == Some(said)
            &&& text_of(4, Frame { mark, flags: 1, data: size + data }) == Some(said)
            &&& text_of(4, Frame { mark, flags: 8, data }) is None
            &&& text_of(4, Frame { mark, flags: 4, data }) is None
        }),
{
    let data = seq![0u8] + words + zeros;
    let said = Seq::new(words.len(), |i: int| words[i] as char);
    let all = text::latin1(data.skip(1));
    assert(data.skip(1) =~= words + zeros);
    assert((size + data).skip(4) =~= data);
    let end = words.len() as int;
    assert forall|i: int| 0 <= i < end implies #[trigger] all[i] != '\0' by {
        assert(words[i] != 0);
    }
    if zeros.len() > 0 {
        assert(zeros[0] == 0);
        assert(all[end] == '\0');
    }
    lemma_nul(all, 0, end);
    assert(all.subrange(0, end) =~= said);
    assert(text::trimmed(said) == said);
    assert(1u8 / 4 % 4 == 0 && 8u8 / 4 % 4 != 0 && 4u8 / 4 % 4 != 0);
}

proof fn lemma_nul(text: Seq<char>, from: int, at: int)
    requires
        0 <= from <= at <= text.len(),
        at < text.len() ==> text[at] == '\0',
        forall|i: int| from <= i < at ==> #[trigger] text[i] != '\0',
    ensures
        text::letter_at(text, '\0', from) == at,
    decreases at - from,
{
    if from < at {
        lemma_nul(text, from + 1, at);
    }
}

/// A track number is read from its digits, and whatever stands behind a slash is not looked at.
pub proof fn a_track_number_stands_before_the_slash(number: u32, total: Seq<char>)
    ensures
        tags::track_number(text::decimal(number as nat)) == Some(number),
        tags::track_number(text::decimal(number as nat) + seq!['/'] + total) == Some(number),
{
    let digits = text::decimal(number as nat);
    text::decimal_reads_back(number as nat);
    assert forall|i: int| 0 <= i < digits.len() implies #[trigger] digits[i] != '/' by {
        assert(text::is_digit(digits[i]));
    }
    assert(text::is_digit(digits[0]));
    let whole = digits + seq!['/'] + total;
    lemma_slash(digits, 0, digits.len() as int);
    assert forall|i: int| 0 <= i < digits.len() implies #[trigger] whole[i] != '/' by {
        assert(whole[i] == digits[i]);
    }
    lemma_slash(whole, 0, digits.len() as int);
    assert(digits.subrange(0, digits.len() as int) =~= digits);
    assert(whole.subrange(0, digits.len() as int) =~= digits);
}

proof fn lemma_slash(text: Seq<char>, from: int, at: int)
    requires
        0 <= from <= at <= text.len(),
        at < text.len() ==> text[at] == '/',
        forall|i: int| from <= i < at ==> #[trigger] text[i] != '/',
    ensures
        text::letter_at(text, '/', from) == at,
    decreases at - from,
{
    if from < at {
        lemma_slash(text, from + 1, at);
    }
}

/// A letter of the first 65,536, which UTF-16 writes in one unit.
pub open spec fn is_one_unit(letter: char) -> bool {
    0 < letter as int && ((letter as int) < 0xD800 || 0xE000 <= letter as int <= 0xFFFF)
}

/// Letters in UTF-16, with the high byte of each first or last.
pub open spec fn in_units(letters: Seq<char>, high_first: bool) -> Seq<u8> {
    Seq::new(
        letters.len() * 2,
        |i: int|
            if (i % 2 == 0) == high_first {
                (letters[i / 2] as int / 256) as u8
            } else {
                (letters[i / 2] as int % 256) as u8
            },
    )
}

proof fn lemma_units(letters: Seq<char>, high_first: bool)
    requires
        forall|i: int| 0 <= i < letters.len() ==> is_one_unit(#[trigger] letters[i]),
    ensures
        text::utf16_text(tags::units(in_units(letters, high_first), high_first)) == letters,
{
    let data = in_units(letters, high_first);
    let units = tags::units(data, high_first);
    assert forall|i: int| 0 <= i < letters.len() implies #[trigger] units[i] as int
        == letters[i] as int by {
        assert(is_one_unit(letters[i]));
        let at = i * 2;
        assert(at / 2 == i && at % 2 == 0 && (at + 1) / 2 == i && (at + 1) % 2 == 1);
        let high = letters[i] as int / 256;
        let low = letters[i] as int % 256;
        assert(0 <= high < 256 && high * 256 + low == letters[i] as int);
        if high_first {
            assert(data[at] as int == high && data[at + 1] as int == low);
        } else {
            assert(data[at] as int == low && data[at + 1] as int == high);
        }
    }
    lemma_letters(units, letters);
}

proof fn lemma_letters(units: Seq<u16>, letters: Seq<char>)
    requires
        units.len() == letters.len(),
        forall|i: int| 0 <= i < letters.len() ==> is_one_unit(#[trigger] letters[i]),
        forall|i: int| 0 <= i < letters.len() ==> #[trigger] units[i] as int == letters[i] as int,
    ensures
        text::utf16_text(units) == letters,
    decreases units.len(),
{
    if units.len() == 0 {
        assert(letters =~= Seq::empty());
    } else {
        assert(is_one_unit(letters[0]) && units[0] as int == letters[0] as int);
        let fewer = units.skip(1);
        let rest = letters.skip(1);
        assert forall|i: int| 0 <= i < rest.len() implies is_one_unit(#[trigger] rest[i])
            && fewer[i] as int == rest[i] as int by {
            assert(rest[i] == letters[i + 1] && fewer[i] == units[i + 1]);
        }
        lemma_letters(fewer, rest);
        assert(seq![letters[0]] + rest =~= letters);
        assert(units[0] as char == letters[0]);
    }
}

/// A text frame in UTF-16 says its text: with a mark of its byte order ahead of it, whichever it
/// is; without one, low byte first; and high byte first where the encoding is the one that has
/// no mark.
pub proof fn a_utf16_frame_says_its_text(version: u8, mark: Seq<u8>, letters: Seq<char>)
    requires
        2 <= version <= 4,
        letters.len() > 0,
        forall|i: int| 0 <= i < letters.len() ==> is_one_unit(#[trigger] letters[i]),
        !text::is_space(letters[0]),
        !text::is_space(letters.last()),
        letters[0] as int != 0xFEFF,
        letters[0] as int != 0xFFFE,
    ensures
        ({
            let low = in_units(letters, false);
            let high = in_units(letters, true);
            &&& text_of(version, Frame { mark, flags: 0, data: seq![1u8, 0xFF, 0xFE] + low })
                == Some(letters)
            &&& text_of(version, Frame { mark, flags: 0, data: seq![1u8, 0xFE, 0xFF] + high })
                == Some(letters)
            &&& text_of(version, Frame { mark, flags: 0, data: seq![1u8] + low }) == Some(letters)
            &&& text_of(version, Frame { mark, flags: 0, data: seq![2u8] + high }) == Some(letters)
        }),
{
    let low = in_units(letters, false);
    let high = in_units(letters, true);
    lemma_units(letters, false);
    lemma_units(letters, true);
    lemma_one_value(letters);
    let a = seq![1u8, 0xFF, 0xFE] + low;
    assert(a.skip(1).skip(2) =~= low);
    assert(a.skip(1)[0] == 0xFF && a.skip(1)[1] == 0xFE);
    let b = seq![1u8, 0xFE, 0xFF] + high;
    assert(b.skip(1).skip(2) =~= high);
    assert(b.skip(1)[0] == 0xFE && b.skip(1)[1] == 0xFF);
    let c = seq![1u8] + low;
    assert(c.skip(1) =~= low);
    assert(is_one_unit(letters[0]));
    assert(low[0] as int == letters[0] as int % 256 && low[1] as int == letters[0] as int / 256);
    let d = seq![2u8] + high;
    assert(d.skip(1) =~= high);
}

/// A text that is one value without a zero in it is that value.
proof fn lemma_one_value(letters: Seq<char>)
    requires
        letters.len() > 0,
        forall|i: int| 0 <= i < letters.len() ==> is_one_unit(#[trigger] letters[i]),
        !text::is_space(letters[0]),
        !text::is_space(letters.last()),
    ensures
        tags::first_value(letters, 0) == Some(letters),
{
    assert forall|i: int| 0 <= i < letters.len() implies #[trigger] letters[i] != '\0' by {
        assert(is_one_unit(letters[i]));
    }
    lemma_nul(letters, 0, letters.len() as int);
    assert(letters.subrange(0, letters.len() as int) =~= letters);
    assert(text::trimmed(letters) == letters);
}

/// Blank values ahead of the first that says something are passed over.
pub proof fn blank_values_are_passed_over(blank: Seq<char>, from: int, whole: Seq<char>)
    requires
        0 <= from,
        from + blank.len() < whole.len(),
        whole.subrange(from, from + blank.len()) == blank,
        whole[from + blank.len()] == '\0',
        forall|i: int| 0 <= i < blank.len() ==> #[trigger] blank[i] != '\0',
        text::trimmed(blank).len() == 0,
    ensures
        tags::first_value(whole, from) == tags::first_value(whole, from + blank.len() + 1),
{
    assert forall|i: int| from <= i < from + blank.len() implies #[trigger] whole[i] != '\0' by {
        assert(whole.subrange(from, from + blank.len())[i - from] == whole[i]);
    }
    lemma_nul(whole, from, from + blank.len());
}

/// A header of its own ahead of the frames is stepped over: 2.3 does not count the four bytes of
/// its size, and 2.4 does.
pub proof fn an_extended_header_is_stepped_over(
    version: u8,
    more: Seq<u8>,
    frames: Seq<Frame>,
    padding: Seq<u8>,
)
    requires
        3 <= version <= 4,
        more.len() < 0x1000_0000 - 4,
        forall|i: int| 0 <= i < frames.len() ==> writable(version, #[trigger] frames[i]),
        padding.len() > 0 ==> padding[0] == 0,
    ensures
        ({
            let size = if version == 3 {
                bytes::high_first(more.len(), 4)
            } else {
                septets(more.len() + 4)
            };
            says(
                version,
                frames,
                tags::body_tags(
                    version,
                    0x40,
                    size + more + (frames_bytes(version, frames) + padding),
                ),
            )
        }),
{
    let size = if version == 3 {
        bytes::high_first(more.len(), 4)
    } else {
        septets(more.len() + 4)
    };
    let body = frames_bytes(version, frames) + padding;
    let raw = size + more + body;
    bytes::lemma_width(more.len(), 4);
    assert(bytes::stands_at(raw, 0, size + more + body));
    bytes::lemma_stands(raw, 0, size + more, body);
    bytes::lemma_stands(raw, 0, size, more);
    if version == 3 {
        bytes::numbers_read_back_high_first(raw, 0, more.len());
    } else {
        lemma_septets(raw, 0, more.len() + 4);
    }
    assert(0x40u8 / 128 == 0 && 0x40u8 / 64 % 2 == 1);
    assert(tags::frames_start(version, raw) == 4 + more.len());
    assert(raw.skip(4 + more.len() as int) =~= body);
    frames_read_back(version, frames, padding);
}

} // verus!
