//! The Scarlet Book table of contents: what a SACD image says it holds and where.

use crate::bytes;
use crate::dsd::DsdRate;
use crate::reader::tags;
use crate::reader::tags::{Tags, TrackTags};
use crate::text;
use vstd::prelude::*;
use vstd::utf8;

verus! {

/// One logical block of a SACD.
pub const SECTOR: usize = 2048;

/// Audio frames a second, which is also what a frame timecode counts in.
pub const FRAME_RATE: u32 = 75;

/// The master table of contents sits at a fixed place, past the file system area.
pub const MASTER_TOC_LSN: u64 = 510;

pub const MASTER_TOC_SECTORS: usize = 10;

/// Sensible ceiling on an area TOC, so a corrupt size field cannot ask for a huge read.
pub const MAX_AREA_TOC_SECTORS: usize = 96;

/// The sampling frequency code of DSD64, the only one the Scarlet Book defines.
pub const SAMPLE_FREQUENCY_DSD64: u8 = 4;

pub const DSD64_HZ: u32 = 2_822_400;

/// Why an image, or an area of one, was refused.
#[derive(Debug, Clone, Copy, PartialEq, Eq, Structural)]
pub enum TocError {
    Truncated,
    NoMasterToc,
    NoArea,
    NotAnArea,
    Frequency { code: u8 },
    Channels { channels: u16 },
    NoTracks,
    NoTrackList,
}

impl TocError {
    /// What went wrong, in a line.
    pub open spec fn line(self) -> Seq<char> {
        match self {
            TocError::Truncated => "the image ends before its table of contents does"@,
            TocError::NoMasterToc =>
                "not a SACD image: no master table of contents at sector 510"@,
            TocError::NoArea => "the image declares no audio area this player can read"@,
            TocError::NotAnArea => "area does not start with an area table of contents"@,
            TocError::Frequency { code } => "unsupported SACD sampling frequency code "@
                + text::decimal(code as nat),
            TocError::Channels { channels } => "unsupported channel count "@ + text::decimal(
                channels as nat,
            ),
            TocError::NoTracks => "the area declares no tracks"@,
            TocError::NoTrackList => "the area is missing its track list"@,
        }
    }

    /// What went wrong, in a line.
    pub fn message(self) -> (line: String)
        ensures
            line@ == self.line(),
    {
        match self {
            TocError::Truncated => text::owned("the image ends before its table of contents does"),
            TocError::NoMasterToc => text::owned(
                "not a SACD image: no master table of contents at sector 510",
            ),
            TocError::NoArea => text::owned("the image declares no audio area this player can read"),
            TocError::NotAnArea => text::owned("area does not start with an area table of contents"),
            TocError::Frequency { code } => text::with_number(
                "unsupported SACD sampling frequency code ",
                code as u64,
            ),
            TocError::Channels { channels } => text::with_number(
                "unsupported channel count ",
                channels as u64,
            ),
            TocError::NoTracks => text::owned("the area declares no tracks"),
            TocError::NoTrackList => text::owned("the area is missing its track list"),
        }
    }
}

/// One track of an audio area.
#[derive(Debug, PartialEq, Eq)]
pub struct Track {
    pub number: u32,
    pub start_lsn: u32,
    pub end_lsn: u32,
    /// Timecode of the track's first audio frame, counted from the start of the area.
    pub start_frame: u32,
    pub frames: u32,
    pub tags: TrackTags,
}

/// The same as characters.
#[verifier::ext_equal]
pub struct Entry {
    pub number: u32,
    pub start_lsn: u32,
    pub end_lsn: u32,
    pub start_frame: u32,
    pub frames: u32,
    pub tags: Tags,
}

impl View for Track {
    type V = Entry;

    open spec fn view(&self) -> Entry {
        Entry {
            number: self.number,
            start_lsn: self.start_lsn,
            end_lsn: self.end_lsn,
            start_frame: self.start_frame,
            frames: self.frames,
            tags: self.tags@,
        }
    }
}

impl Track {
    pub fn end_frame(&self) -> (end: u32)
        requires
            self.start_frame + self.frames <= u32::MAX,
        ensures
            end == self.start_frame + self.frames,
    {
        self.start_frame + self.frames
    }

    /// The same track once more.
    pub fn copy(&self) -> (out: Self)
        ensures
            out@ == self@,
    {
        Track {
            number: self.number,
            start_lsn: self.start_lsn,
            end_lsn: self.end_lsn,
            start_frame: self.start_frame,
            frames: self.frames,
            tags: self.tags.copy(),
        }
    }
}

/// A list of tracks as characters.
pub open spec fn tracks_view(tracks: Seq<Track>) -> Seq<Entry> {
    tracks.map_values(|track: Track| track@)
}

/// One audio area of a disc: the two-channel mix or the multichannel one.
#[derive(Debug, PartialEq, Eq)]
pub struct Area {
    pub channels: u16,
    pub rate: DsdRate,
    pub tracks: Vec<Track>,
}

/// The same as characters.
#[verifier::ext_equal]
pub struct AreaListing {
    pub channels: u16,
    pub rate: DsdRate,
    pub tracks: Seq<Entry>,
}

impl View for Area {
    type V = AreaListing;

    open spec fn view(&self) -> AreaListing {
        AreaListing {
            channels: self.channels,
            rate: self.rate,
            tracks: tracks_view(self.tracks@),
        }
    }
}

/// Timecodes count minutes, seconds and frames.
pub open spec fn timecode_at(data: Seq<u8>, at: int) -> int {
    data[at] * 4500 + data[at + 1] * 75 + data[at + 2]
}

/// Timecodes count minutes, seconds and frames; one number of frames is easier to compare.
pub fn timecode(data: &[u8]) -> (frames: u32)
    requires
        data@.len() >= 3,
    ensures
        frames == timecode_at(data@, 0),
{
    data[0] as u32 * 60 * FRAME_RATE + data[1] as u32 * FRAME_RATE + data[2] as u32
}

fn read_timecode(data: &[u8], at: usize) -> (frames: u32)
    requires
        at + 3 <= data@.len(),
    ensures
        frames == timecode_at(data@, at as int),
        frames <= 0x20_0000,
{
    data[at] as u32 * 60 * FRAME_RATE + data[at + 1] as u32 * FRAME_RATE + data[at + 2] as u32
}

/// Text on a disc: UTF-8 where it is and Latin-1 where it is not, without the white space
/// around it, if any is left. Discs predate UTF-8 and mostly carry ISO 8859-1, but a modern
/// rip may hold either.
pub open spec fn disc_text(raw: Seq<u8>) -> Option<Seq<char>> {
    let whole = if utf8::valid_utf8(raw) {
        utf8::decode_utf8(raw)
    } else {
        text::latin1(raw)
    };
    let text = text::trimmed(whole);
    if text.len() == 0 {
        None
    } else {
        Some(text)
    }
}

/// The text between two places of a block.
fn text_in(block: &[u8], start: usize, end: usize) -> (out: Option<String>)
    requires
        start <= end <= block@.len(),
    ensures
        text::option_view(out) == disc_text(block@.subrange(start as int, end as int)),
{
    let raw: Vec<u8> = bytes::copy_between(block, start, end);
    let chars: Vec<char> = match text::from_utf8(raw.as_slice()) {
        Some(text) => text::chars_of(text),
        None => {
            assert(raw@.subrange(0, raw@.len() as int) =~= raw@);
            text::latin1_chars(raw.as_slice(), 0, raw.len())
        },
    };
    assert(chars@.subrange(0, chars@.len() as int) =~= chars@);
    let text: String = text::trim_between(&chars, 0, chars.len());
    if text.as_str().is_empty() {
        None
    } else {
        Some(text)
    }
}

/// The NUL-terminated text at `offset`, if the block reaches that far.
pub open spec fn text_at(block: Seq<u8>, offset: int) -> Option<Seq<char>> {
    if offset > block.len() {
        None
    } else {
        disc_text(block.subrange(offset, tags::nul_at(block, offset)))
    }
}

/// Where a run of bytes from `from` on first holds a zero, or where it ends.
fn find_nul(block: &[u8], from: usize) -> (at: usize)
    requires
        from <= block@.len(),
    ensures
        at == tags::nul_at(block@, from as int),
        from <= at <= block@.len(),
{
    let mut at: usize = from;
    while at < block.len() && block[at] != 0
        invariant
            from <= at <= block@.len(),
            tags::nul_at(block@, from as int) == tags::nul_at(block@, at as int),
        decreases block@.len() - at,
    {
        at += 1;
    }
    at
}

/// The NUL-terminated string at `offset`, as UTF-8 where it is and Latin-1 where it is not.
pub fn string_at(block: &[u8], offset: u16) -> (out: Option<String>)
    ensures
        text::option_view(out) == text_at(block@, offset as int),
{
    let start: usize = offset as usize;
    if start > block.len() {
        return None;
    }
    let end: usize = find_nul(block, start);
    text_in(block, start, end)
}

/// Where the bytes from `from` on stop being zero.
pub open spec fn past_zeros(block: Seq<u8>, from: int) -> int
    decreases block.len() - from,
{
    if from < 0 || from >= block.len() || block[from] != 0 {
        from
    } else {
        past_zeros(block, from + 1)
    }
}

/// A track's tags after `fields` text fields from `cursor` on: each is its kind, a byte that
/// is always a space, and its text, with zeros behind it. Nothing is read past the end of the
/// block: the flag says whether the fields came to an end before it did.
pub open spec fn fields_read(block: Seq<u8>, cursor: int, fields: int, known: Tags) -> (Tags, bool)
    decreases fields,
{
    if fields <= 0 {
        (known, true)
    } else if cursor >= block.len() || cursor + 2 > block.len() {
        (known, false)
    } else {
        let kind = block[cursor];
        let start = cursor + 2;
        let end = tags::nul_at(block, start);
        let found = disc_text(block.subrange(start, end));
        let next = if kind == 1 {
            Tags { title: found, ..known }
        } else if kind == 2 {
            Tags { artist: found, ..known }
        } else {
            known
        };
        fields_read(block, past_zeros(block, end), fields - 1, next)
    }
}

/// The tags of every track after the text from track `index` on is read. The block's index
/// says where each track's text sits. Text that runs past the end of the block ends the walk.
pub open spec fn titled(block: Seq<u8>, index: int, known: Seq<Tags>) -> Seq<Tags>
    decreases known.len() - index,
{
    if index < 0 || index >= known.len() {
        known
    } else {
        let position = bytes::be16(block, 8 + index * 2);
        if position == 0 || position >= block.len() {
            titled(block, index + 1, known)
        } else {
            let (found, whole) = fields_read(
                block,
                position + 4,
                block[position] as int,
                known[index],
            );
            let next = known.update(index, found);
            if whole {
                titled(block, index + 1, next)
            } else {
                next
            }
        }
    }
}

/// Read one track's fields. Says whether they came to an end before the block did.
fn read_fields(block: &[u8], from: usize, fields: usize, tags: &mut TrackTags) -> (whole: bool)
    requires
        from <= block@.len() + 4,
        block@.len() <= usize::MAX - 8,
    ensures
        (final(tags)@, whole) == fields_read(block@, from as int, fields as int, old(tags)@),
{
    let mut cursor: usize = from;
    let mut left: usize = fields;
    while left > 0
        invariant
            cursor <= block@.len() + 4,
            block@.len() <= usize::MAX - 8,
            fields_read(block@, from as int, fields as int, old(tags)@) == fields_read(
                block@,
                cursor as int,
                left as int,
                tags@,
            ),
        decreases left,
    {
        if cursor >= block.len() || cursor + 2 > block.len() {
            return false;
        }
        let kind: u8 = block[cursor];
        let start: usize = cursor + 2;
        let end: usize = find_nul(block, start);
        // 1 marks a title and 2 a performer, the two kinds this player shows.
        if kind == 1 {
            tags.title = text_in(block, start, end);
        } else if kind == 2 {
            tags.artist = text_in(block, start, end);
        }
        cursor = end;
        while cursor < block.len() && block[cursor] == 0
            invariant
                end <= cursor <= block@.len(),
                past_zeros(block@, end as int) == past_zeros(block@, cursor as int),
            decreases block@.len() - cursor,
        {
            cursor += 1;
        }
        left -= 1;
    }
    true
}

/// A list of tags as characters.
pub open spec fn tags_view(list: Seq<TrackTags>) -> Seq<Tags> {
    list.map_values(|one: TrackTags| one@)
}

/// Track titles and performers, each track's text sitting where the block's index says.
pub fn read_track_text(block: &[u8], list: &mut Vec<TrackTags>)
    requires
        8 + old(list)@.len() * 2 <= block@.len() <= usize::MAX - 8,
    ensures
        tags_view(final(list)@) == titled(block@, 0, tags_view(old(list)@)),
{
    let ghost whole = titled(block@, 0, tags_view(list@));
    let count: usize = list.len();
    let mut index: usize = 0;
    while index < count
        invariant
            index <= count == list@.len(),
            8 + count * 2 <= block@.len() <= usize::MAX - 8,
            whole == titled(block@, 0, tags_view(old(list)@)),
            whole == titled(block@, index as int, tags_view(list@)),
        decreases count - index,
    {
        let position: usize = bytes::read_be16(block, 8 + index * 2) as usize;
        if position != 0 && position < block.len() {
            // A count, three bytes this player has no use for, then that many fields.
            let fields: usize = block[position] as usize;
            let mut tags: TrackTags = list[index].copy();
            assert(tags@ == tags_view(list@)[index as int]);
            let came_whole: bool = read_fields(block, position + 4, fields, &mut tags);
            let ghost before = tags_view(list@);
            let ghost found = tags@;
            list.set(index, tags);
            assert(tags_view(list@) =~= before.update(index as int, found));
            if !came_whole {
                return;
            }
        }
        index += 1;
    }
}

/// The marks that sectors of a table of contents start with.
#[derive(Debug, Clone, Copy, PartialEq, Eq, Structural)]
pub enum Mark {
    /// `SACDMTOC`: the master table of contents.
    Master,
    /// `SACDText`: the disc's own names.
    Text,
    /// `TWOCHTOC`: a two-channel area.
    TwoChannel,
    /// `MULCHTOC`: a multichannel area.
    Multichannel,
    /// `SACDTRL1`: where the tracks lie.
    Places,
    /// `SACDTRL2`: when the tracks start and how long they are.
    Times,
    /// `SACDTTxt`: the tracks' names.
    TrackText,
}

/// The mark stands at `at`.
pub open spec fn marked(data: Seq<u8>, at: int, mark: Mark) -> bool {
    match mark {
        Mark::Master => bytes::mark4(data, at, 0x53, 0x41, 0x43, 0x44) && bytes::mark4(
            data,
            at + 4,
            0x4D,
            0x54,
            0x4F,
            0x43,
        ),
        Mark::Text => bytes::mark4(data, at, 0x53, 0x41, 0x43, 0x44) && bytes::mark4(
            data,
            at + 4,
            0x54,
            0x65,
            0x78,
            0x74,
        ),
        Mark::TwoChannel => bytes::mark4(data, at, 0x54, 0x57, 0x4F, 0x43) && bytes::mark4(
            data,
            at + 4,
            0x48,
            0x54,
            0x4F,
            0x43,
        ),
        Mark::Multichannel => bytes::mark4(data, at, 0x4D, 0x55, 0x4C, 0x43) && bytes::mark4(
            data,
            at + 4,
            0x48,
            0x54,
            0x4F,
            0x43,
        ),
        Mark::Places => bytes::mark4(data, at, 0x53, 0x41, 0x43, 0x44) && bytes::mark4(
            data,
            at + 4,
            0x54,
            0x52,
            0x4C,
            0x31,
        ),
        Mark::Times => bytes::mark4(data, at, 0x53, 0x41, 0x43, 0x44) && bytes::mark4(
            data,
            at + 4,
            0x54,
            0x52,
            0x4C,
            0x32,
        ),
        Mark::TrackText => bytes::mark4(data, at, 0x53, 0x41, 0x43, 0x44) && bytes::mark4(
            data,
            at + 4,
            0x54,
            0x54,
            0x78,
            0x74,
        ),
    }
}

fn is_marked(data: &[u8], at: usize, mark: Mark) -> (yes: bool)
    requires
        at + 8 <= data@.len(),
    ensures
        yes == marked(data@, at as int, mark),
{
    assert(data.len() == data@.len());
    let next: usize = at + 4;
    match mark {
        Mark::Master => bytes::is_mark4(data, at, 0x53, 0x41, 0x43, 0x44) && bytes::is_mark4(
            data,
            next,
            0x4D,
            0x54,
            0x4F,
            0x43,
        ),
        Mark::Text => bytes::is_mark4(data, at, 0x53, 0x41, 0x43, 0x44) && bytes::is_mark4(
            data,
            next,
            0x54,
            0x65,
            0x78,
            0x74,
        ),
        Mark::TwoChannel => bytes::is_mark4(data, at, 0x54, 0x57, 0x4F, 0x43) && bytes::is_mark4(
            data,
            next,
            0x48,
            0x54,
            0x4F,
            0x43,
        ),
        Mark::Multichannel => bytes::is_mark4(data, at, 0x4D, 0x55, 0x4C, 0x43) && bytes::is_mark4(
            data,
            next,
            0x48,
            0x54,
            0x4F,
            0x43,
        ),
        Mark::Places => bytes::is_mark4(data, at, 0x53, 0x41, 0x43, 0x44) && bytes::is_mark4(
            data,
            next,
            0x54,
            0x52,
            0x4C,
            0x31,
        ),
        Mark::Times => bytes::is_mark4(data, at, 0x53, 0x41, 0x43, 0x44) && bytes::is_mark4(
            data,
            next,
            0x54,
            0x52,
            0x4C,
            0x32,
        ),
        Mark::TrackText => bytes::is_mark4(data, at, 0x53, 0x41, 0x43, 0x44) && bytes::is_mark4(
            data,
            next,
            0x54,
            0x54,
            0x78,
            0x74,
        ),
    }
}

/// Where the whole sectors from sector `index` on start with a mark.
pub open spec fn sectors_marked(data: Seq<u8>, index: int, mark: Mark) -> Seq<int>
    decreases data.len() - index * 2048,
{
    if index < 0 || (index + 1) * 2048 > data.len() {
        Seq::empty()
    } else if marked(data, index * 2048, mark) {
        seq![index * 2048] + sectors_marked(data, index + 1, mark)
    } else {
        sectors_marked(data, index + 1, mark)
    }
}

/// Places in a run of bytes, as integers.
pub open spec fn places(list: Seq<usize>) -> Seq<int> {
    list.map_values(|at: usize| at as int)
}

fn find_sectors(data: &[u8], from: usize, mark: Mark) -> (out: Vec<usize>)
    requires
        from <= 1,
    ensures
        places(out@) == sectors_marked(data@, from as int, mark),
        forall|k: int| 0 <= k < out@.len() ==> #[trigger] out@[k] + 2048 <= data@.len(),
{
    let ghost whole = sectors_marked(data@, from as int, mark);
    let mut out: Vec<usize> = Vec::new();
    let mut at: usize = from * SECTOR;
    let ghost mut index = from as int;
    assert(places(out@) + whole =~= whole);
    while at <= data.len() && data.len() - at >= SECTOR
        invariant
            at == index * 2048,
            0 <= index,
            whole == places(out@) + sectors_marked(data@, index, mark),
            forall|k: int| 0 <= k < out@.len() ==> #[trigger] out@[k] + 2048 <= data@.len(),
        decreases data@.len() - at,
    {
        let ghost before = out@;
        if is_marked(data, at, mark) {
            out.push(at);
            assert(places(out@) =~= places(before).push(at as int));
        }
        at += SECTOR;
        proof {
            index = index + 1;
            assert(whole =~= places(out@) + sectors_marked(data@, index, mark));
        }
    }
    assert(places(out@) =~= whole);
    out
}

/// Sum of two 32-bit numbers, as a 32-bit number.
pub open spec fn sum32(a: int, b: int) -> u32 {
    ((a + b) % 0x1_0000_0000) as u32
}

/// The track list of an area whose places and times stand in the sectors at `listed` and
/// `timed`, under the names in `named`.
pub open spec fn listed_tracks(
    data: Seq<u8>,
    listed: int,
    timed: int,
    named: Seq<Tags>,
) -> Seq<Entry> {
    Seq::new(
        named.len(),
        |i: int|
            Entry {
                number: (i + 1) as u32,
                start_lsn: bytes::be32(data, listed + 8 + i * 4) as u32,
                end_lsn: sum32(
                    bytes::be32(data, listed + 8 + i * 4),
                    bytes::be32(data, listed + 1028 + i * 4),
                ),
                start_frame: timecode_at(data, timed + 8 + i * 4) as u32,
                frames: timecode_at(data, timed + 1028 + i * 4) as u32,
                tags: Tags { track: Some((i + 1) as u32), ..named[i] },
            },
    )
}

/// The names an area gives its tracks. Only the first language is kept. A text block runs
/// past its own sector when the titles are long, so it is read from where it starts to the
/// end of the area.
pub open spec fn area_names(data: Seq<u8>, count: int) -> Seq<Tags> {
    let blank = Seq::new(count as nat, |i: int| tags::no_tags());
    let texts = sectors_marked(data, 1, Mark::TrackText);
    if texts.len() == 0 {
        blank
    } else {
        titled(data.skip(texts[0]), 0, blank)
    }
}

/// One area table of contents and the track list that follows it. The list has to be there
/// exactly once.
pub open spec fn area(data: Seq<u8>) -> Result<AreaListing, TocError> {
    let count = data[69] as int;
    let listed = sectors_marked(data, 1, Mark::Places);
    let timed = sectors_marked(data, 1, Mark::Times);
    if !marked(data, 0, Mark::TwoChannel) && !marked(data, 0, Mark::Multichannel) {
        Err(TocError::NotAnArea)
    } else if data[20] != SAMPLE_FREQUENCY_DSD64 {
        Err(TocError::Frequency { code: data[20] })
    } else if !(1 <= data[32] <= 6) {
        Err(TocError::Channels { channels: data[32] as u16 })
    } else if count == 0 {
        Err(TocError::NoTracks)
    } else if listed.len() != 1 || timed.len() != 1 {
        Err(TocError::NoTrackList)
    } else {
        Ok(
            AreaListing {
                channels: data[32] as u16,
                rate: DsdRate(DSD64_HZ),
                tracks: listed_tracks(data, listed[0], timed[0], area_names(data, count)),
            },
        )
    }
}

/// Tracks whose sectors and frames can be counted with.
pub open spec fn tracks_wf(tracks: Seq<Entry>) -> bool {
    forall|i: int|
        0 <= i < tracks.len() ==> (#[trigger] tracks[i]).start_frame + tracks[i].frames <= 0x40_0000
}

pub(crate) proof fn lemma_titled_len(block: Seq<u8>, index: int, known: Seq<Tags>)
    ensures
        titled(block, index, known).len() == known.len(),
    decreases known.len() - index,
{
    if 0 <= index < known.len() {
        let position = bytes::be16(block, 8 + index * 2);
        if position == 0 || position >= block.len() {
            lemma_titled_len(block, index + 1, known);
        } else {
            let (found, whole) = fields_read(
                block,
                position + 4,
                block[position] as int,
                known[index],
            );
            lemma_titled_len(block, index + 1, known.update(index, found));
        }
    }
}

/// Parse one area TOC and the track list that follows it.
pub fn read_area(data: &[u8]) -> (out: Result<Area, TocError>)
    requires
        70 <= data@.len() <= usize::MAX - 8,
    ensures
        match area(data@) {
            Ok(listing) => {
                &&& out matches Ok(found)
                &&& found@ == listing
                &&& found.rate == DsdRate(DSD64_HZ)
                &&& 1 <= found.channels <= 6
                &&& tracks_wf(listing.tracks)
            },
            Err(error) => out == Err::<Area, TocError>(error),
        },
{
    if !is_marked(data, 0, Mark::TwoChannel) && !is_marked(data, 0, Mark::Multichannel) {
        return Err(TocError::NotAnArea);
    }
    let code: u8 = data[20];
    if code != SAMPLE_FREQUENCY_DSD64 {
        return Err(TocError::Frequency { code });
    }
    let channels: u16 = data[32] as u16;
    if channels < 1 || channels > 6 {
        return Err(TocError::Channels { channels });
    }
    let count: usize = data[69] as usize;
    if count == 0 {
        return Err(TocError::NoTracks);
    }
    let listed: Vec<usize> = find_sectors(data, 1, Mark::Places);
    let timed: Vec<usize> = find_sectors(data, 1, Mark::Times);
    assert(places(listed@).len() == listed@.len() && places(timed@).len() == timed@.len());
    if listed.len() != 1 || timed.len() != 1 {
        return Err(TocError::NoTrackList);
    }
    let list: usize = listed[0];
    let times: usize = timed[0];
    assert(places(listed@)[0] == list && places(timed@)[0] == times);
    let mut names: Vec<TrackTags> = Vec::new();
    while names.len() < count
        invariant
            names@.len() <= count,
            forall|i: int| 0 <= i < names@.len() ==> (#[trigger] names@[i])@ == tags::no_tags(),
        decreases count - names@.len(),
    {
        names.push(TrackTags::default());
    }
    assert(tags_view(names@) =~= Seq::new(count as nat, |i: int| tags::no_tags()));
    let texts: Vec<usize> = find_sectors(data, 1, Mark::TrackText);
    assert(places(texts@).len() == texts@.len());
    if texts.len() > 0 {
        assert(places(texts@)[0] == texts@[0]);
        let block: Vec<u8> = bytes::copy_between(data, texts[0], data.len());
        assert(block@ =~= data@.skip(texts@[0] as int));
        read_track_text(block.as_slice(), &mut names);
    }
    let ghost named = area_names(data@, count as int);
    assert(tags_view(names@) == named);
    proof {
        if texts@.len() > 0 {
            lemma_titled_len(
                data@.skip(texts@[0] as int),
                0,
                Seq::new(count as nat, |i: int| tags::no_tags()),
            );
        }
        assert(tags_view(names@).len() == names@.len());
    }
    let ghost entries = listed_tracks(data@, list as int, times as int, named);
    let mut tracks: Vec<Track> = Vec::new();
    let mut index: usize = 0;
    while index < count
        invariant
            index <= count <= 255,
            count == names@.len() == entries.len(),
            list + 2048 <= data@.len() <= usize::MAX - 8,
            times + 2048 <= data@.len(),
            named == tags_view(names@),
            entries == listed_tracks(data@, list as int, times as int, named),
            tracks@.len() == index,
            forall|i: int| 0 <= i < index ==> (#[trigger] tracks@[i])@ == entries[i],
            forall|i: int|
                0 <= i < index ==> (#[trigger] entries[i]).start_frame + entries[i].frames
                    <= 0x40_0000,
        decreases count - index,
    {
        let start_lsn: u32 = bytes::read_be32(data, list + 8 + index * 4);
        let length: u32 = bytes::read_be32(data, list + 1028 + index * 4);
        let number: u32 = index as u32 + 1;
        assert(named[index as int] == names@[index as int]@);
        let track: Track = Track {
            number,
            start_lsn,
            end_lsn: ((start_lsn as u64 + length as u64) % 0x1_0000_0000) as u32,
            start_frame: read_timecode(data, times + 8 + index * 4),
            frames: read_timecode(data, times + 1028 + index * 4),
            tags: TrackTags {
                title: text::owned_option(&names[index].title),
                artist: text::owned_option(&names[index].artist),
                album: text::owned_option(&names[index].album),
                track: Some(number),
            },
        };
        assert(track@ =~= entries[index as int]);
        tracks.push(track);
        index += 1;
    }
    assert(tracks_view(tracks@) =~= entries);
    Ok(Area { channels, rate: DsdRate(DSD64_HZ), tracks })
}

/// What a SACD image holds, read once when the file is opened.
#[derive(Debug, PartialEq, Eq)]
pub struct Toc {
    pub album: Option<String>,
    pub artist: Option<String>,
    pub area: Area,
}

/// The same as characters.
#[verifier::ext_equal]
pub struct Contents {
    pub album: Option<Seq<char>>,
    pub artist: Option<Seq<char>>,
    pub area: AreaListing,
}

impl View for Toc {
    type V = Contents;

    open spec fn view(&self) -> Contents {
        Contents {
            album: text::option_view(self.album),
            artist: text::option_view(self.artist),
            area: self.area@,
        }
    }
}

/// `count` sectors of an image from sector `lsn` on, if it has them.
pub open spec fn sectors(image: Seq<u8>, lsn: int, count: int) -> Option<Seq<u8>> {
    if (lsn + count) * 2048 > image.len() {
        None
    } else {
        Some(image.subrange(lsn * 2048, (lsn + count) * 2048))
    }
}

/// `count` sectors of an image from sector `lsn` on.
pub fn read_sectors(image: &[u8], lsn: u64, count: usize) -> (out: Result<Vec<u8>, TocError>)
    ensures
        match sectors(image@, lsn as int, count as int) {
            Some(data) => out matches Ok(read) && read@ == data,
            None => out == Err::<Vec<u8>, TocError>(TocError::Truncated),
        },
{
    let len: u128 = image.len() as u128;
    let end: u128 = (lsn as u128 + count as u128) * 2048;
    if end > len {
        return Err(TocError::Truncated);
    }
    let start: usize = lsn as usize * 2048;
    Ok(bytes::copy_between(image, start, end as usize))
}

/// The first text that is there, of two.
pub open spec fn either(first: Option<Seq<char>>, second: Option<Seq<char>>) -> Option<Seq<char>> {
    if first is Some {
        first
    } else {
        second
    }
}

/// The album title and artist: the album's own first, then the disc's own names where a set
/// gives the disc a different one.
pub open spec fn master_names(master: Seq<u8>) -> (Option<Seq<char>>, Option<Seq<char>>) {
    let found = sectors_marked(master, 0, Mark::Text);
    if found.len() == 0 {
        (None, None)
    } else {
        let block = master.subrange(found[0], found[0] + 2048);
        (
            either(
                text_at(block, bytes::be16(block, 16)),
                text_at(block, bytes::be16(block, 32)),
            ),
            either(
                text_at(block, bytes::be16(block, 18)),
                text_at(block, bytes::be16(block, 34)),
            ),
        )
    }
}

fn string_or(block: &[u8], first: usize, second: usize) -> (out: Option<String>)
    requires
        first + 2 <= block@.len(),
        second + 2 <= block@.len(),
    ensures
        text::option_view(out) == either(
            text_at(block@, bytes::be16(block@, first as int)),
            text_at(block@, bytes::be16(block@, second as int)),
        ),
{
    match string_at(block, bytes::read_be16(block, first)) {
        Some(text) => Some(text),
        None => string_at(block, bytes::read_be16(block, second)),
    }
}

/// The album title and artist, from the master text block.
fn master_text(master: &[u8]) -> (names: (Option<String>, Option<String>))
    ensures
        (text::option_view(names.0), text::option_view(names.1)) == master_names(master@),
{
    let found: Vec<usize> = find_sectors(master, 0, Mark::Text);
    assert(places(found@).len() == found@.len());
    if found.len() == 0 {
        return (None, None);
    }
    assert(places(found@)[0] == found@[0]);
    assert(master.len() == master@.len());
    let block: Vec<u8> = bytes::copy_between(master, found[0], found[0] + SECTOR);
    (string_or(block.as_slice(), 16, 32), string_or(block.as_slice(), 18, 34))
}

/// The area whose table of contents lies at `lsn`, if the image has one there that this
/// player can read.
pub open spec fn area_at(image: Seq<u8>, lsn: int, count: int) -> Result<
    Option<AreaListing>,
    TocError,
> {
    let wanted = if count < MAX_AREA_TOC_SECTORS {
        count
    } else {
        MAX_AREA_TOC_SECTORS as int
    };
    if lsn == 0 || count == 0 {
        Ok(None)
    } else {
        match sectors(image, lsn, wanted) {
            None => Err(TocError::Truncated),
            Some(data) => match area(data) {
                Ok(listing) => Ok(Some(listing)),
                Err(_) => Ok(None),
            },
        }
    }
}

fn read_area_at(image: &[u8], lsn: u32, count: u16) -> (out: Result<Option<Area>, TocError>)
    ensures
        match area_at(image@, lsn as int, count as int) {
            Ok(None) => out matches Ok(None),
            Ok(Some(listing)) => {
                &&& out matches Ok(Some(found))
                &&& found@ == listing
                &&& found.rate == DsdRate(DSD64_HZ)
                &&& 1 <= found.channels <= 6
                &&& tracks_wf(listing.tracks)
            },
            Err(error) => out matches Err(e) && e == error,
        },
{
    if lsn == 0 || count == 0 {
        return Ok(None);
    }
    let wanted: usize = if (count as usize) < MAX_AREA_TOC_SECTORS {
        count as usize
    } else {
        MAX_AREA_TOC_SECTORS
    };
    match read_sectors(image, lsn as u64, wanted) {
        Ok(data) => match read_area(data.as_slice()) {
            Ok(found) => Ok(Some(found)),
            Err(_) => Ok(None),
        },
        Err(error) => Err(error),
    }
}

/// The area to play, of the two an image may have: the first with two channels, or else the
/// first there is.
pub open spec fn chosen_area(image: Seq<u8>, master: Seq<u8>) -> Result<AreaListing, TocError> {
    let first = area_at(image, bytes::be32(master, 64), bytes::be16(master, 84));
    let second = area_at(image, bytes::be32(master, 72), bytes::be16(master, 86));
    match first {
        Err(error) => Err(error),
        Ok(Some(one)) if one.channels == 2 => Ok(one),
        Ok(one) => match second {
            Err(error) => Err(error),
            Ok(Some(other)) if other.channels == 2 || one is None => Ok(other),
            Ok(_) => match one {
                Some(listing) => Ok(listing),
                None => Err(TocError::NoArea),
            },
        },
    }
}

/// The table of contents of an image, or why it has none.
#[verifier::opaque]
pub open spec fn contents(image: Seq<u8>) -> Result<Contents, TocError> {
    match sectors(image, MASTER_TOC_LSN as int, MASTER_TOC_SECTORS as int) {
        None => Err(TocError::Truncated),
        Some(master) => if !marked(master, 0, Mark::Master) {
            Err(TocError::NoMasterToc)
        } else {
            match chosen_area(image, master) {
                Err(error) => Err(error),
                Ok(listing) => Ok(
                    Contents {
                        album: master_names(master).0,
                        artist: master_names(master).1,
                        area: listing,
                    },
                ),
            }
        },
    }
}

impl Toc {
    /// An area this player can read, with tracks that can be counted with.
    pub open spec fn wf(self) -> bool {
        &&& self.area.rate == DsdRate(DSD64_HZ)
        &&& 1 <= self.area.channels <= 6
        &&& tracks_wf(self.area@.tracks)
    }

    /// Read the table of contents, preferring the two-channel area. A disc with only a
    /// multichannel area plays that instead, on a device with the channels for it.
    pub fn read(image: &[u8]) -> (out: Result<Self, TocError>)
        ensures
            match contents(image@) {
                Ok(listing) => out matches Ok(toc) && toc@ == listing && toc.wf(),
                Err(error) => out matches Err(e) && e == error,
            },
    {
        reveal(contents);
        let master: Vec<u8> = match read_sectors(image, MASTER_TOC_LSN, MASTER_TOC_SECTORS) {
            Ok(master) => master,
            Err(error) => {
                return Err(error);
            },
        };
        let head: &[u8] = master.as_slice();
        if !is_marked(head, 0, Mark::Master) {
            return Err(TocError::NoMasterToc);
        }
        let (album, artist): (Option<String>, Option<String>) = master_text(head);
        let first: Option<Area> = match read_area_at(
            image,
            bytes::read_be32(head, 64),
            bytes::read_be16(head, 84),
        ) {
            Ok(first) => first,
            Err(error) => {
                return Err(error);
            },
        };
        // Two channels first: it is the mix every DAC can play, and the one a listener
        // asking for a stereo player means.
        let area: Area = match first {
            Some(one) => {
                if one.channels == 2 {
                    one
                } else {
                    match read_area_at(
                        image,
                        bytes::read_be32(head, 72),
                        bytes::read_be16(head, 86),
                    ) {
                        Err(error) => {
                            return Err(error);
                        },
                        Ok(Some(other)) => if other.channels == 2 {
                            other
                        } else {
                            one
                        },
                        Ok(None) => one,
                    }
                }
            },
            None => match read_area_at(
                image,
                bytes::read_be32(head, 72),
                bytes::read_be16(head, 86),
            ) {
                Err(error) => {
                    return Err(error);
                },
                Ok(Some(other)) => other,
                Ok(None) => {
                    return Err(TocError::NoArea);
                },
            },
        };
        Ok(Toc { album, artist, area })
    }
}

/// A disc with a two-channel area plays that one, whichever comes first.
pub proof fn two_channels_come_first(image: Seq<u8>, master: Seq<u8>)
    ensures
        ({
            let first = area_at(image, bytes::be32(master, 64), bytes::be16(master, 84));
            let second = area_at(image, bytes::be32(master, 72), bytes::be16(master, 86));
            chosen_area(image, master) matches Ok(listing) ==> {
                ||| listing.channels == 2
                ||| !((first matches Ok(Some(one)) && one.channels == 2) || (second matches Ok(
                    Some(other),
                ) && other.channels == 2))
            }
        }),
{
}

/// The tracks of a disc come in disc order, numbered from one.
pub proof fn tracks_are_numbered_in_disc_order(image: Seq<u8>)
    ensures
        contents(image) matches Ok(listing) ==> forall|i: int|
            0 <= i < listing.area.tracks.len() ==> (#[trigger] listing.area.tracks[i]).number == i
                + 1,
{
    reveal(contents);
    if let Ok(listing) = contents(image) {
        let master = sectors(image, MASTER_TOC_LSN as int, MASTER_TOC_SECTORS as int)->0;
        lemma_numbers(image, bytes::be32(master, 64), bytes::be16(master, 84));
        lemma_numbers(image, bytes::be32(master, 72), bytes::be16(master, 86));
    }
}

proof fn lemma_numbers(image: Seq<u8>, lsn: int, count: int)
    ensures
        area_at(image, lsn, count) matches Ok(Some(listing)) ==> forall|i: int|
            0 <= i < listing.tracks.len() ==> (#[trigger] listing.tracks[i]).number == i + 1,
{
    if let Ok(Some(listing)) = area_at(image, lsn, count) {
        let wanted = if count < MAX_AREA_TOC_SECTORS {
            count
        } else {
            MAX_AREA_TOC_SECTORS as int
        };
        let data = sectors(image, lsn, wanted)->0;
        let tracks = data[69] as int;
        let texts = sectors_marked(data, 1, Mark::TrackText);
        if texts.len() > 0 {
            lemma_titled_len(
                data.skip(texts[0]),
                0,
                Seq::new(tracks as nat, |i: int| tags::no_tags()),
            );
        }
    }
}

} // verus!
