//! What a container says the recording is.

use crate::bytes;
use crate::text;
use vstd::prelude::*;

verus! {

const ID3_HEADER_LEN: usize = 10;

/// A tag larger than this is carrying artwork this player has no use for, so stop reading.
pub const MAX_TAG_BYTES: usize = 0x40_0000;

/// What a container says the recording is, as far as this player displays it.
#[derive(Debug, Clone, PartialEq, Eq)]
pub struct TrackTags {
    pub title: Option<String>,
    pub artist: Option<String>,
    pub album: Option<String>,
    pub track: Option<u32>,
}

/// The same as characters.
#[verifier::ext_equal]
pub struct Tags {
    pub title: Option<Seq<char>>,
    pub artist: Option<Seq<char>>,
    pub album: Option<Seq<char>>,
    pub track: Option<u32>,
}

/// No tags at all.
pub open spec fn no_tags() -> Tags {
    Tags { title: None, artist: None, album: None, track: None }
}

/// A number right-aligned in two columns.
pub open spec fn two_columns(number: nat) -> Seq<char> {
    if number < 10 {
        seq![' '] + text::decimal(number)
    } else {
        text::decimal(number)
    }
}

/// A number right-aligned in two columns.
pub fn in_two_columns(number: u64) -> (out: String)
    ensures
        out@ == two_columns(number as nat),
{
    let mut out: String = String::new();
    if number < 10 {
        out.push(' ');
    }
    out.append(text::decimal_of(number).as_str());
    assert(out@ =~= two_columns(number as nat));
    out
}

impl Default for TrackTags {
    fn default() -> (tags: Self)
        ensures
            tags@ == no_tags(),
    {
        TrackTags { title: None, artist: None, album: None, track: None }
    }
}

impl View for TrackTags {
    type V = Tags;

    open spec fn view(&self) -> Tags {
        Tags {
            title: text::option_view(self.title),
            artist: text::option_view(self.artist),
            album: text::option_view(self.album),
            track: self.track,
        }
    }
}

impl Tags {
    /// One line naming the recording, or whichever half of it the file carries.
    pub open spec fn headline(self) -> Option<Seq<char>> {
        match (self.artist, self.title) {
            (Some(artist), Some(title)) => Some(artist + " — "@ + title),
            (None, Some(title)) => Some(title),
            (Some(artist), None) => Some(artist),
            (None, None) => None,
        }
    }

    /// The track number and title.
    pub open spec fn label(self) -> Option<Seq<char>> {
        match self.title {
            Some(title) => match self.track {
                Some(number) => Some(two_columns(number as nat) + ". "@ + title),
                None => Some(title),
            },
            None => None,
        }
    }
}

impl TrackTags {
    /// The same tags once more.
    pub fn copy(&self) -> (out: Self)
        ensures
            out@ == self@,
    {
        TrackTags {
            title: text::owned_option(&self.title),
            artist: text::owned_option(&self.artist),
            album: text::owned_option(&self.album),
            track: self.track,
        }
    }

    /// One line naming the recording, or whichever half of it the file carries.
    pub fn headline(&self) -> (line: Option<String>)
        ensures
            text::option_view(line) == self@.headline(),
    {
        match &self.artist {
            Some(artist) => match &self.title {
                Some(title) => {
                    let mut line: String = text::owned(artist.as_str());
                    line.append(" — ");
                    line.append(title.as_str());
                    Some(line)
                },
                None => Some(text::owned(artist.as_str())),
            },
            None => text::owned_option(&self.title),
        }
    }

    /// A file-pane label: the track number and title, for a pane with no room for more.
    pub fn label(&self) -> (line: Option<String>)
        ensures
            text::option_view(line) == self@.label(),
    {
        match &self.title {
            Some(title) => match self.track {
                Some(number) => {
                    let mut line: String = in_two_columns(number as u64);
                    line.append(". ");
                    line.append(title.as_str());
                    Some(line)
                },
                None => Some(text::owned(title.as_str())),
            },
            None => None,
        }
    }
}

/// Where the bytes from `from` on first hold a zero, or where they end.
pub open spec fn nul_at(body: Seq<u8>, from: int) -> int
    decreases body.len() - from,
{
    if from >= body.len() || body[from] == 0 {
        from
    } else {
        nul_at(body, from + 1)
    }
}

/// Text up to its first zero byte, without the white space around it, if any is left.
pub open spec fn plain_text(body: Seq<u8>) -> Option<Seq<char>> {
    let text = text::trimmed(text::latin1(body.subrange(0, nul_at(body, 0))));
    if text.len() == 0 {
        None
    } else {
        Some(text)
    }
}

/// The text in part of a run of bytes, up to its first zero byte and trimmed.
pub fn ascii_text(body: &[u8], start: usize, end: usize) -> (out: Option<String>)
    requires
        start <= end <= body@.len(),
    ensures
        text::option_view(out) == plain_text(body@.subrange(start as int, end as int)),
{
    let ghost part = body@.subrange(start as int, end as int);
    let mut stop: usize = start;
    while stop < end && body[stop] != 0
        invariant
            start <= stop <= end <= body@.len(),
            part == body@.subrange(start as int, end as int),
            nul_at(part, 0) == nul_at(part, stop - start),
        decreases end - stop,
    {
        stop += 1;
    }
    let chars: Vec<char> = text::latin1_chars(body, start, stop);
    assert(body@.subrange(start as int, stop as int) =~= part.subrange(0, stop - start));
    assert(chars@.subrange(0, chars@.len() as int) =~= chars@);
    let text: String = text::trim_between(&chars, 0, chars.len());
    if text.as_str().is_empty() {
        None
    } else {
        Some(text)
    }
}

/// The tags after the DSDIFF information chunks from `offset` on: sub-chunks of a mark, a
/// 64-bit size and that many bytes, on even offsets. A text sub-chunk starts with a 32-bit
/// count. A sub-chunk that runs past the end stops the walk.
pub open spec fn diin_tags(body: Seq<u8>, offset: int, tags: Tags) -> Tags
    decreases body.len() + 1 - offset,
{
    if offset < 0 || offset + 12 > body.len() || bytes::be64(body, offset + 4) > body.len() - (offset
        + 12) || bytes::be64(body, offset + 4) < 0 {
        tags
    } else {
        let size = bytes::be64(body, offset + 4);
        let start = offset + 12;
        let end = start + size;
        let next = if size < 4 {
            tags
        } else {
            let found = plain_text(body.subrange(start + 4, end));
            if bytes::mark4(body, offset, 0x44, 0x49, 0x41, 0x52) {
                Tags { artist: found, ..tags }
            } else if bytes::mark4(body, offset, 0x44, 0x49, 0x54, 0x49) {
                Tags { title: found, ..tags }
            } else {
                tags
            }
        };
        diin_tags(body, end + end % 2, next)
    }
}

/// Read the artist and title out of a DSDIFF edited-master information chunk.
pub fn parse_diin(body: &[u8], tags: &mut TrackTags)
    ensures
        final(tags)@ == diin_tags(body@, 0, old(tags)@),
{
    let ghost whole = diin_tags(body@, 0, tags@);
    let mut offset: usize = 0;
    while offset <= body.len() && body.len() - offset >= 12
        invariant
            whole == diin_tags(body@, offset as int, tags@),
            whole == diin_tags(body@, 0, old(tags)@),
        decreases body@.len() + 1 - offset,
    {
        let size: u64 = bytes::read_be64(body, offset + 4);
        let start: usize = offset + 12;
        if size > (body.len() - start) as u64 {
            return;
        }
        let end: usize = start + size as usize;
        if size >= 4 {
            // DIAR names the artist, DITI the title.
            if bytes::is_mark4(body, offset, 0x44, 0x49, 0x41, 0x52) {
                tags.artist = ascii_text(body, start + 4, end);
            } else if bytes::is_mark4(body, offset, 0x44, 0x49, 0x54, 0x49) {
                tags.title = ascii_text(body, start + 4, end);
            }
        }
        if end == body.len() {
            assert(diin_tags(body@, end + end % 2, tags@) == tags@);
            return;
        }
        offset = end + end % 2;
    }
}

/// The four text frames this player shows. Everything else in a tag is skipped.
#[derive(Debug, Clone, Copy, PartialEq, Eq, Structural)]
pub enum Field {
    Title,
    Artist,
    Album,
    Track,
}

/// The field that a frame's mark stands for: three characters in ID3v2.2, four after it.
pub open spec fn field_at(version: u8, body: Seq<u8>, at: int) -> Option<Field> {
    if version == 2 {
        if bytes::mark3(body, at, 0x54, 0x54, 0x32) {
            Some(Field::Title)
        } else if bytes::mark3(body, at, 0x54, 0x50, 0x31) {
            Some(Field::Artist)
        } else if bytes::mark3(body, at, 0x54, 0x41, 0x4C) {
            Some(Field::Album)
        } else if bytes::mark3(body, at, 0x54, 0x52, 0x4B) {
            Some(Field::Track)
        } else {
            None
        }
    } else {
        if bytes::mark4(body, at, 0x54, 0x49, 0x54, 0x32) {
            Some(Field::Title)
        } else if bytes::mark4(body, at, 0x54, 0x50, 0x45, 0x31) {
            Some(Field::Artist)
        } else if bytes::mark4(body, at, 0x54, 0x41, 0x4C, 0x42) {
            Some(Field::Album)
        } else if bytes::mark4(body, at, 0x54, 0x52, 0x43, 0x4B) {
            Some(Field::Track)
        } else {
            None
        }
    }
}

/// ID3v2.2 named its frames in three characters (TT2, TP1, TAL, TRK); 2.3 and 2.4 use four
/// (TIT2, TPE1, TALB, TRCK).
fn field_of(version: u8, body: &[u8], at: usize) -> (field: Option<Field>)
    requires
        at + 3 <= body@.len(),
        version != 2 ==> at + 4 <= body@.len(),
    ensures
        field == field_at(version, body@, at as int),
{
    if version == 2 {
        if bytes::is_mark3(body, at, 0x54, 0x54, 0x32) {
            Some(Field::Title)
        } else if bytes::is_mark3(body, at, 0x54, 0x50, 0x31) {
            Some(Field::Artist)
        } else if bytes::is_mark3(body, at, 0x54, 0x41, 0x4C) {
            Some(Field::Album)
        } else if bytes::is_mark3(body, at, 0x54, 0x52, 0x4B) {
            Some(Field::Track)
        } else {
            None
        }
    } else {
        if bytes::is_mark4(body, at, 0x54, 0x49, 0x54, 0x32) {
            Some(Field::Title)
        } else if bytes::is_mark4(body, at, 0x54, 0x50, 0x45, 0x31) {
            Some(Field::Artist)
        } else if bytes::is_mark4(body, at, 0x54, 0x41, 0x4C, 0x42) {
            Some(Field::Album)
        } else if bytes::is_mark4(body, at, 0x54, 0x52, 0x43, 0x4B) {
            Some(Field::Track)
        } else {
            None
        }
    }
}

/// Four bytes of seven bits each.
pub open spec fn syncsafe(body: Seq<u8>, at: int) -> int {
    body[at] as int % 128 * 0x20_0000 + body[at + 1] as int % 128 * 0x4000 + body[at + 2] as int % 128 * 0x80
        + body[at + 3] as int % 128
}

fn read_syncsafe(body: &[u8], at: usize) -> (value: u32)
    requires
        at + 4 <= body@.len(),
    ensures
        value == syncsafe(body@, at as int),
        value < 0x1000_0000,
{
    (body[at] % 128) as u32 * 0x20_0000 + (body[at + 1] % 128) as u32 * 0x4000 + (body[at + 2] % 128) as u32
        * 0x80 + (body[at + 3] % 128) as u32
}

/// A body from `from` on with the zero after every 0xFF taken out.
pub open spec fn desynchronised(body: Seq<u8>, from: int) -> Seq<u8>
    decreases body.len() - from,
{
    if from >= body.len() {
        Seq::empty()
    } else if body[from] == 0xFF && from + 1 < body.len() && body[from + 1] == 0 {
        seq![0xFFu8] + desynchronised(body, from + 2)
    } else {
        seq![body[from]] + desynchronised(body, from + 1)
    }
}

/// A body with a zero put after every 0xFF.
pub open spec fn unsynchronised(body: Seq<u8>) -> Seq<u8>
    decreases body.len(),
{
    if body.len() == 0 {
        Seq::empty()
    } else if body[0] == 0xFF {
        seq![0xFFu8, 0u8] + unsynchronised(body.skip(1))
    } else {
        seq![body[0]] + unsynchronised(body.skip(1))
    }
}

proof fn lemma_desynchronised_after(head: Seq<u8>, tail: Seq<u8>, from: int)
    requires
        0 <= from <= tail.len(),
    ensures
        desynchronised(head + tail, head.len() + from) == desynchronised(tail, from),
    decreases tail.len() - from,
{
    let whole = head + tail;
    if from < tail.len() {
        assert(whole[head.len() + from] == tail[from]);
        if from + 1 < tail.len() {
            assert(whole[head.len() + from + 1] == tail[from + 1]);
            lemma_desynchronised_after(head, tail, from + 2 - (if from + 2 > tail.len() { 1int } else { 0int }));
        }
        lemma_desynchronised_after(head, tail, from + 1);
    }
}

/// Undoing the unsynchronisation of a body gives the body back.
pub proof fn desynchronising_restores_the_body(body: Seq<u8>)
    ensures
        desynchronised(unsynchronised(body), 0) == body,
    decreases body.len(),
{
    let escaped = unsynchronised(body);
    if body.len() > 0 {
        let rest = body.skip(1);
        desynchronising_restores_the_body(rest);
        let tail = unsynchronised(rest);
        if body[0] == 0xFF {
            lemma_desynchronised_after(seq![0xFFu8, 0u8], tail, 0);
            assert(desynchronised(escaped, 0) == seq![0xFFu8] + desynchronised(escaped, 2));
        } else {
            lemma_desynchronised_after(seq![body[0]], tail, 0);
            assert(desynchronised(escaped, 0) == seq![body[0]] + desynchronised(escaped, 1));
        }
        assert(seq![body[0]] + rest =~= body);
    } else {
        assert(escaped =~= body);
    }
}

fn desynchronise(body: &[u8]) -> (out: Vec<u8>)
    ensures
        out@ == desynchronised(body@, 0),
{
    let ghost whole = desynchronised(body@, 0);
    let mut out: Vec<u8> = Vec::new();
    let mut index: usize = 0;
    assert(out@ + desynchronised(body@, 0) =~= whole);
    while index < body.len()
        invariant
            index <= body@.len(),
            whole == out@ + desynchronised(body@, index as int),
        decreases body@.len() - index,
    {
        let ghost before = out@;
        out.push(body[index]);
        if body[index] == 0xFF && body.len() - index > 1 && body[index + 1] == 0 {
            assert(whole =~= out@ + desynchronised(body@, index + 2));
            index += 2;
        } else {
            assert(whole =~= out@ + desynchronised(body@, index + 1));
            index += 1;
        }
    }
    assert(out@ =~= whole);
    out
}

/// Where the frames of a tag start behind its extended header. 2.3 sizes that header without
/// counting its own size field; 2.4 counts it.
pub open spec fn frames_start(version: u8, body: Seq<u8>) -> int {
    if body.len() < 4 {
        body.len() as int
    } else if version == 4 {
        syncsafe(body, 0)
    } else {
        bytes::be32(body, 0) + 4
    }
}

fn extended_header_len(version: u8, body: &[u8]) -> (len: u64)
    ensures
        len == frames_start(version, body@),
{
    if body.len() < 4 {
        body.len() as u64
    } else if version == 4 {
        read_syncsafe(body, 0) as u64
    } else {
        bytes::read_be32(body, 0) as u64 + 4
    }
}

/// Bytes in a frame's mark, and in its size.
pub open spec fn id_len(version: u8) -> int {
    if version == 2 {
        3
    } else {
        4
    }
}

/// Bytes in a frame's header.
pub open spec fn frame_header_len(version: u8) -> int {
    if version == 2 {
        6
    } else {
        10
    }
}

/// The size a frame's header declares: 24 bits, 32 bits, or four times seven.
pub open spec fn frame_size_at(version: u8, body: Seq<u8>, at: int) -> int {
    if version == 2 {
        bytes::be24(body, at)
    } else if version == 3 {
        bytes::be32(body, at)
    } else {
        syncsafe(body, at)
    }
}

fn frame_size(version: u8, body: &[u8], at: usize) -> (size: u32)
    requires
        at + id_len(version) <= body@.len(),
    ensures
        size == frame_size_at(version, body@, at as int),
{
    if version == 2 {
        bytes::read_be24(body, at)
    } else if version == 3 {
        bytes::read_be32(body, at)
    } else {
        read_syncsafe(body, at)
    }
}

/// What a frame's flags leave of its data. 2.4 lets a frame be compressed, encrypted, or
/// prefixed with its decoded length. The first two are not worth carrying a decompressor for;
/// the third is four bytes to step over.
pub open spec fn frame_data(version: u8, flags: u8, data: Seq<u8>) -> Option<Seq<u8>> {
    if version < 4 {
        Some(data)
    } else if flags / 4 % 4 != 0 {
        None
    } else if flags % 2 == 0 {
        Some(data)
    } else if data.len() >= 4 {
        Some(data.skip(4))
    } else {
        None
    }
}

/// Bytes as UTF-16 code units; an odd byte at the end is left out.
pub open spec fn units(data: Seq<u8>, big_endian: bool) -> Seq<u16> {
    Seq::new(
        data.len() / 2,
        |i: int|
            if big_endian {
                bytes::be16(data, i * 2) as u16
            } else {
                bytes::le16(data, i * 2) as u16
            },
    )
}

/// Text in the encoding that the byte before it names.
pub open spec fn encoded_text(data: Seq<u8>) -> Option<Seq<char>> {
    let body = data.skip(1);
    if data.len() == 0 {
        None
    } else if data[0] == 0 {
        Some(text::latin1(body))
    } else if data[0] == 1 {
        if body.len() >= 2 && body[0] == 0xFF && body[1] == 0xFE {
            Some(text::utf16_text(units(body.skip(2), false)))
        } else if body.len() >= 2 && body[0] == 0xFE && body[1] == 0xFF {
            Some(text::utf16_text(units(body.skip(2), true)))
        } else {
            Some(text::utf16_text(units(body, false)))
        }
    } else if data[0] == 2 {
        Some(text::utf16_text(units(body, true)))
    } else if data[0] == 3 {
        Some(text::utf8_lossy(body))
    } else {
        None
    }
}

/// The first of the null-separated values from `from` on that is not blank, trimmed.
pub open spec fn first_value(text: Seq<char>, from: int) -> Option<Seq<char>>
    decreases text.len() + 1 - from,
    when 0 <= from
    via first_value_decreases
{
    if from > text.len() {
        None
    } else {
        let end = text::letter_at(text, '\0', from);
        let value = text::trimmed(text.subrange(from, end));
        if value.len() > 0 {
            Some(value)
        } else {
            first_value(text, end + 1)
        }
    }
}

#[via_fn]
proof fn first_value_decreases(text: Seq<char>, from: int) {
    text::lemma_letter_at(text, '\0', from);
}

/// The text of a frame: its first value that is not blank.
pub open spec fn frame_text(data: Seq<u8>) -> Option<Seq<char>> {
    match encoded_text(data) {
        Some(text) => first_value(text, 0),
        None => None,
    }
}

/// The number in front of a slash.
pub open spec fn track_number(text: Seq<char>) -> Option<u32> {
    match text::parsed(text.subrange(0, text::letter_at(text, '/', 0)), u32::MAX as int) {
        Some(number) => Some(number as u32),
        None => None,
    }
}

/// The tags after one more text frame. A frame without text changes nothing.
pub open spec fn assigned(field: Field, data: Seq<u8>, tags: Tags) -> Tags {
    match frame_text(data) {
        None => tags,
        Some(text) => match field {
            Field::Title => Tags { title: Some(text), ..tags },
            Field::Artist => Tags { artist: Some(text), ..tags },
            Field::Album => Tags { album: Some(text), ..tags },
            Field::Track => Tags { track: track_number(text), ..tags },
        },
    }
}

/// The tags after the frames from `offset` on. A zero mark is padding and ends the walk, and
/// so does a frame that runs past the end.
pub open spec fn framed_tags(version: u8, body: Seq<u8>, offset: int, tags: Tags) -> Tags
    decreases body.len() - offset,
{
    let start = offset + frame_header_len(version);
    let size = frame_size_at(version, body, offset + id_len(version));
    let end = start + size;
    if offset < 0 || start > body.len() || body[offset] == 0 || size < 0 || end > body.len() {
        tags
    } else {
        let flags = if version == 2 {
            0
        } else {
            body[start - 1]
        };
        let next = match field_at(version, body, offset) {
            Some(field) => match frame_data(version, flags, body.subrange(start, end)) {
                Some(data) => assigned(field, data, tags),
                None => tags,
            },
            None => tags,
        };
        framed_tags(version, body, end, next)
    }
}

/// What a tag's body says, once its unsynchronisation is undone and its extended header is
/// stepped over.
pub open spec fn body_tags(version: u8, flags: u8, raw: Seq<u8>) -> Tags {
    let body = if flags / 128 == 0 {
        raw
    } else {
        desynchronised(raw, 0)
    };
    let start = if flags / 64 % 2 == 0 {
        0
    } else {
        frames_start(version, body)
    };
    if !(2 <= version <= 4) || start > body.len() {
        no_tags()
    } else {
        framed_tags(version, body.skip(start), 0, no_tags())
    }
}

/// What the ID3v2 tag at `offset` of a file says: nothing where there is no tag.
pub open spec fn id3_tags(file: Seq<u8>, offset: int) -> Tags {
    if offset + 10 > file.len() || !bytes::mark3(file, offset, 0x49, 0x44, 0x33) {
        no_tags()
    } else {
        let declared = syncsafe(file, offset + 6);
        let wanted = if declared < MAX_TAG_BYTES {
            declared
        } else {
            MAX_TAG_BYTES as int
        };
        let start = offset + 10;
        let end = if start + wanted < file.len() {
            start + wanted
        } else {
            file.len() as int
        };
        body_tags(file[offset + 3], file[offset + 5], file.subrange(start, end))
    }
}

fn read_units(data: &[u8], start: usize, end: usize, big_endian: bool) -> (out: Vec<u16>)
    requires
        start <= end <= data@.len(),
    ensures
        out@ == units(data@.subrange(start as int, end as int), big_endian),
{
    let ghost part = data@.subrange(start as int, end as int);
    let mut out: Vec<u16> = Vec::new();
    let mut at: usize = start;
    while end - at >= 2
        invariant
            start <= at <= end <= data@.len(),
            part == data@.subrange(start as int, end as int),
            at - start == out@.len() * 2,
            out@.len() <= part.len() / 2,
            forall|i: int| 0 <= i < out@.len() ==> out@[i] == units(part, big_endian)[i],
        decreases end - at,
    {
        let unit: u16 = if big_endian {
            bytes::read_be16(data, at)
        } else {
            bytes::read_le16(data, at)
        };
        out.push(unit);
        at += 2;
    }
    assert(out@ =~= units(part, big_endian));
    out
}

/// The characters of a text frame, in the encoding its first byte names.
fn decode_chars(data: &[u8], start: usize, end: usize) -> (out: Option<Vec<char>>)
    requires
        start <= end <= data@.len(),
    ensures
        match out {
            Some(chars) => encoded_text(data@.subrange(start as int, end as int)) == Some(chars@),
            None => encoded_text(data@.subrange(start as int, end as int)) is None,
        },
{
    if start == end {
        return None;
    }
    let ghost part = data@.subrange(start as int, end as int);
    let ghost body = part.skip(1);
    let first: usize = start + 1;
    assert(body =~= data@.subrange(first as int, end as int));
    match data[start] {
        0 => Some(text::latin1_chars(data, first, end)),
        1 => {
            if end - first >= 2 && data[first] == 0xFF && data[first + 1] == 0xFE {
                assert(body.skip(2) =~= data@.subrange(first + 2, end as int));
                let units: Vec<u16> = read_units(data, first + 2, end, false);
                Some(text::chars_of(text::from_utf16_lossy(&units).as_str()))
            } else if end - first >= 2 && data[first] == 0xFE && data[first + 1] == 0xFF {
                assert(body.skip(2) =~= data@.subrange(first + 2, end as int));
                let units: Vec<u16> = read_units(data, first + 2, end, true);
                Some(text::chars_of(text::from_utf16_lossy(&units).as_str()))
            } else {
                let units: Vec<u16> = read_units(data, first, end, false);
                Some(text::chars_of(text::from_utf16_lossy(&units).as_str()))
            }
        },
        2 => {
            let units: Vec<u16> = read_units(data, first, end, true);
            Some(text::chars_of(text::from_utf16_lossy(&units).as_str()))
        },
        3 => {
            let copy: Vec<u8> = bytes::copy_between(data, first, end);
            Some(text::chars_of(text::from_utf8_lossy(copy.as_slice()).as_str()))
        },
        _ => None,
    }
}

/// The first null-separated value that is not blank. 2.4 separates multiple values with
/// nulls, and 2.3 pads the end with one.
pub fn value_of(chars: &Vec<char>) -> (out: Option<String>)
    ensures
        text::option_view(out) == first_value(chars@, 0),
{
    let mut from: usize = 0;
    loop
        invariant
            from <= chars@.len(),
            first_value(chars@, 0) == first_value(chars@, from as int),
        decreases chars@.len() - from,
    {
        let end: usize = text::find_letter(chars, '\0', from);
        let value: String = text::trim_between(chars, from, end);
        if !value.as_str().is_empty() {
            return Some(value);
        }
        if end == chars.len() {
            assert(first_value(chars@, end + 1) is None);
            return None;
        }
        from = end + 1;
    }
}

/// The number in front of a slash: a track frame reads "5" or "5/12".
pub fn number_of(text: &str) -> (out: Option<u32>)
    ensures
        out == track_number(text@),
{
    let chars: Vec<char> = text::chars_of(text);
    let end: usize = text::find_letter(&chars, '/', 0);
    text::parse_u32(text::text_between(&chars, 0, end).as_str())
}

fn assign(field: Field, data: &[u8], start: usize, end: usize, tags: &mut TrackTags)
    requires
        start <= end <= data@.len(),
    ensures
        final(tags)@ == assigned(field, data@.subrange(start as int, end as int), old(tags)@),
{
    let text: String = match decode_chars(data, start, end) {
        Some(chars) => match value_of(&chars) {
            Some(text) => text,
            None => {
                return;
            },
        },
        None => {
            return;
        },
    };
    match field {
        Field::Title => {
            tags.title = Some(text);
        },
        Field::Artist => {
            tags.artist = Some(text);
        },
        Field::Album => {
            tags.album = Some(text);
        },
        Field::Track => {
            tags.track = number_of(text.as_str());
        },
    }
}

/// Take in the text frame that lies between `start` and `end`, if its flags let it be read.
fn take_frame(
    version: u8,
    flags: u8,
    field: Field,
    body: &[u8],
    start: usize,
    end: usize,
    tags: &mut TrackTags,
)
    requires
        start <= end <= body@.len(),
    ensures
        final(tags)@ == (match frame_data(
            version,
            flags,
            body@.subrange(start as int, end as int),
        ) {
            Some(data) => assigned(field, data, old(tags)@),
            None => old(tags)@,
        }),
{
    if version < 4 {
        assign(field, body, start, end, tags);
    } else if flags / 4 % 4 == 0 {
        if flags % 2 == 0 {
            assign(field, body, start, end, tags);
        } else if end - start >= 4 {
            assert(body@.subrange(start as int, end as int).skip(4) =~= body@.subrange(
                start + 4,
                end as int,
            ));
            assign(field, body, start + 4, end, tags);
        }
    }
}

fn collect_frames(version: u8, body: &[u8], tags: &mut TrackTags)
    requires
        2 <= version <= 4,
    ensures
        final(tags)@ == framed_tags(version, body@, 0, old(tags)@),
{
    let ghost whole = framed_tags(version, body@, 0, tags@);
    let id: usize = if version == 2 {
        3
    } else {
        4
    };
    let header: usize = if version == 2 {
        6
    } else {
        10
    };
    let mut offset: usize = 0;
    while body.len() - offset >= header
        invariant
            2 <= version <= 4,
            id == id_len(version),
            header == frame_header_len(version),
            offset <= body@.len(),
            whole == framed_tags(version, body@, offset as int, tags@),
            whole == framed_tags(version, body@, 0, old(tags)@),
        decreases body@.len() - offset,
    {
        if body[offset] == 0 {
            return;
        }
        let size: u32 = frame_size(version, body, offset + id);
        let start: usize = offset + header;
        if size as usize > body.len() - start {
            return;
        }
        let end: usize = start + size as usize;
        // The second of the two flag bytes is the one that describes the frame's data.
        let flags: u8 = if version == 2 {
            0
        } else {
            body[start - 1]
        };
        if let Some(field) = field_of(version, body, offset) {
            take_frame(version, flags, field, body, start, end, tags);
        }
        offset = end;
    }
}

fn parse_id3v2(version: u8, flags: u8, raw: Vec<u8>) -> (tags: TrackTags)
    ensures
        tags@ == body_tags(version, flags, raw@),
{
    let mut tags: TrackTags = TrackTags::default();
    if version < 2 || version > 4 {
        return tags;
    }
    // Unsynchronisation hides 0xFF 0x00 pairs in the tag so a decoder never mistakes one for
    // an MPEG frame sync. Undo it before the frame headers are read, or every size is wrong.
    let body: Vec<u8> = if flags / 128 == 0 {
        raw
    } else {
        desynchronise(raw.as_slice())
    };
    let start: u64 = if flags / 64 % 2 == 0 {
        0
    } else {
        extended_header_len(version, body.as_slice())
    };
    if start > body.len() as u64 {
        return tags;
    }
    let frames: Vec<u8> = bytes::copy_between(body.as_slice(), start as usize, body.len());
    assert(frames@ =~= body@.skip(start as int));
    collect_frames(version, frames.as_slice(), &mut tags);
    tags
}

/// Read the ID3v2 tag at `offset` of a file. A malformed tag is not worth refusing a playable
/// file over, so anything unparseable comes back as no tags rather than an error.
pub fn read_id3v2(file: &[u8], offset: u64) -> (tags: TrackTags)
    ensures
        tags@ == id3_tags(file@, offset as int),
{
    if offset > file.len() as u64 {
        return TrackTags::default();
    }
    let at: usize = offset as usize;
    if file.len() - at < ID3_HEADER_LEN || !bytes::is_mark3(file, at, 0x49, 0x44, 0x33) {
        return TrackTags::default();
    }
    let declared: usize = read_syncsafe(file, at + 6) as usize;
    let wanted: usize = if declared < MAX_TAG_BYTES {
        declared
    } else {
        MAX_TAG_BYTES
    };
    let start: usize = at + ID3_HEADER_LEN;
    let end: usize = if wanted < file.len() - start {
        start + wanted
    } else {
        file.len()
    };
    parse_id3v2(file[at + 3], file[at + 5], bytes::copy_between(file, start, end))
}

/// A number takes two columns, and more only where it has more digits.
pub proof fn a_number_takes_two_columns(tens: int, ones: int)
    requires
        0 <= tens < 10,
        0 <= ones < 10,
    ensures
        two_columns((tens * 10 + ones) as nat) == seq![
            if tens == 0 {
                ' '
            } else {
                text::digit(tens)
            },
            text::digit(ones),
        ],
{
    let number = (tens * 10 + ones) as nat;
    if tens > 0 {
        assert(number / 10 == tens && number % 10 == ones);
        assert(text::decimal(tens as nat) == seq![text::digit(tens)]);
        assert(text::decimal(number) =~= seq![text::digit(tens), text::digit(ones)]);
    } else {
        assert(text::decimal(number) == seq![text::digit(ones)]);
        assert(two_columns(number) =~= seq![' ', text::digit(ones)]);
    }
}

} // verus!
