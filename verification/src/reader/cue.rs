//! Cue sheets: the track list for a file that holds a whole side in one stream.
//!
//! A rip of a disc to one DSDIFF, DSF, or FLAC file keeps its track boundaries in a `.cue`
//! sheet beside it. The sheet names the audio file and gives each track a start time, so the
//! file opens as the tracks the sheet describes rather than as one recording.

use crate::bytes;
use crate::path;
use crate::reader::tags;
use crate::reader::tags::{Tags, TrackTags};
use crate::text;
use vstd::prelude::*;
use vstd::utf8;

verus! {

/// A cue sheet counts in frames of a seventy-fifth of a second, as a CD does.
pub const CUE_FRAME_RATE: u64 = 75;

/// A sheet larger than this is not a track list, so stop before reading it.
pub const MAX_SHEET_BYTES: usize = 0x40_0000;

/// A position in a sheet, in frames of a seventy-fifth of a second.
#[derive(Debug, Clone, Copy, PartialEq, Eq, PartialOrd, Ord, Structural)]
pub struct CueTime(pub u64);

/// Why a sheet, or a part of one, was refused.
#[derive(Debug, PartialEq, Eq)]
pub enum CueError {
    TooLarge,
    NoTracks,
    FileUnnamed,
    TrackIncomplete,
    TrackNumber { text: String },
    TrackBeforeFile { number: u32 },
    Time { text: String },
}

/// The same as characters.
pub enum CueFault {
    TooLarge,
    NoTracks,
    FileUnnamed,
    TrackIncomplete,
    TrackNumber { text: Seq<char> },
    TrackBeforeFile { number: u32 },
    Time { text: Seq<char> },
}

impl CueFault {
    /// What went wrong with the sheet at `path`, in a line.
    pub open spec fn line(self, path: Seq<char>) -> Seq<char> {
        match self {
            CueFault::TooLarge => path + " is too large to be a cue sheet"@,
            CueFault::NoTracks => path + " lists no audio tracks"@,
            CueFault::FileUnnamed => "cannot parse "@ + path + ": "@
                + "a FILE line names no file"@,
            CueFault::TrackIncomplete => "cannot parse "@ + path + ": "@
                + "a TRACK line gives no number and mode"@,
            CueFault::TrackNumber { text } => "cannot parse "@ + path + ": "@ + text
                + " is not a track number"@,
            CueFault::TrackBeforeFile { number } => "cannot parse "@ + path + ": "@ + "track "@
                + text::decimal(number as nat) + " comes before any FILE line"@,
            CueFault::Time { text } => "cannot parse "@ + path + ": "@ + text
                + " is not a cue sheet time of the form MM:SS:FF"@,
        }
    }
}

impl CueError {
    /// What went wrong with the sheet at `path`, in a line.
    pub fn message(&self, path: &str) -> (line: String)
        ensures
            line@ == self@.line(path@),
    {
        let mut line: String = match self {
            CueError::TooLarge | CueError::NoTracks => text::owned(path),
            _ => {
                let mut head: String = text::owned("cannot parse ");
                head.append(path);
                head.append(": ");
                head
            },
        };
        match self {
            CueError::TooLarge => line.append(" is too large to be a cue sheet"),
            CueError::NoTracks => line.append(" lists no audio tracks"),
            CueError::FileUnnamed => line.append("a FILE line names no file"),
            CueError::TrackIncomplete => line.append("a TRACK line gives no number and mode"),
            CueError::TrackNumber { text } => {
                line.append(text.as_str());
                line.append(" is not a track number");
            },
            CueError::TrackBeforeFile { number } => {
                line.append("track ");
                line.append(text::decimal_of(*number as u64).as_str());
                line.append(" comes before any FILE line");
            },
            CueError::Time { text } => {
                line.append(text.as_str());
                line.append(" is not a cue sheet time of the form MM:SS:FF");
            },
        }
        line
    }
}

impl View for CueError {
    type V = CueFault;

    open spec fn view(&self) -> CueFault {
        match *self {
            CueError::TooLarge => CueFault::TooLarge,
            CueError::NoTracks => CueFault::NoTracks,
            CueError::FileUnnamed => CueFault::FileUnnamed,
            CueError::TrackIncomplete => CueFault::TrackIncomplete,
            CueError::TrackNumber { text } => CueFault::TrackNumber { text: text@ },
            CueError::TrackBeforeFile { number } => CueFault::TrackBeforeFile { number },
            CueError::Time { text } => CueFault::Time { text: text@ },
        }
    }
}

/// One field of a time: a number, whatever white space is around it.
pub open spec fn time_field(text: Seq<char>, start: int, end: int) -> Option<nat> {
    text::parsed(text::trimmed(text.subrange(start, end)), u64::MAX as int)
}

/// The time a text spells, in cue frames: minutes, seconds and frames between colons. The
/// frames may be left off, and whatever follows them is not looked at. A time too large to
/// count is none.
pub open spec fn time_of(text: Seq<char>) -> Option<u64> {
    let first = text::letter_at(text, ':', 0);
    let second = text::letter_at(text, ':', first + 1);
    let third = text::letter_at(text, ':', second + 1);
    if first >= text.len() {
        None
    } else {
        let frames = if second < text.len() {
            time_field(text, second + 1, third)
        } else {
            Some(0nat)
        };
        match (time_field(text, 0, first), time_field(text, first + 1, second), frames) {
            (Some(m), Some(s), Some(f)) => {
                let value = m * 4500 + s * 75 + f;
                if value <= u64::MAX {
                    Some(value as u64)
                } else {
                    None
                }
            },
            _ => None,
        }
    }
}

fn read_field(chars: &Vec<char>, start: usize, end: usize) -> (out: Option<u64>)
    requires
        start <= end <= chars@.len(),
    ensures
        match time_field(chars@, start as int, end as int) {
            Some(value) => out == Some(value as u64) && value <= u64::MAX,
            None => out is None,
        },
{
    text::parse_u64(text::trim_between(chars, start, end).as_str())
}

impl CueTime {
    /// DSD bytes per channel this time sits at. Every DSD rate is a whole number of bytes
    /// per cue frame, so the boundary lands exactly where the sheet put it.
    pub fn dsd_bytes(self, rate_hz: u32) -> (bytes: u64)
        requires
            self.0 * rate_hz <= u64::MAX,
        ensures
            bytes == self.0 * rate_hz / 600,
    {
        self.0 * rate_hz as u64 / (8 * CUE_FRAME_RATE)
    }

    pub fn pcm_frames(self, rate: u32) -> (frames: u64)
        requires
            self.0 * rate <= u64::MAX,
        ensures
            frames == self.0 * rate / 75,
    {
        self.0 * rate as u64 / CUE_FRAME_RATE
    }

    /// Parse `MM:SS:FF`, or `MM:SS` from a sheet that leaves the frames off.
    pub fn parse(text: &str) -> (out: Result<Self, CueError>)
        ensures
            match time_of(text@) {
                Some(value) => out == Ok::<Self, CueError>(CueTime(value)),
                None => out matches Err(error) && error@ == (CueFault::Time { text: text@ }),
            },
    {
        match Self::read(text) {
            Some(time) => Ok(time),
            None => Err(CueError::Time { text: text::owned(text) }),
        }
    }

    fn read(text: &str) -> (out: Option<Self>)
        ensures
            match time_of(text@) {
                Some(value) => out == Some(CueTime(value)),
                None => out is None,
            },
    {
        let chars: Vec<char> = text::chars_of(text);
        let first: usize = text::find_letter(&chars, ':', 0);
        if first == chars.len() {
            return None;
        }
        let second: usize = text::find_letter(&chars, ':', first + 1);
        let minutes: Option<u64> = read_field(&chars, 0, first);
        let seconds: Option<u64> = read_field(&chars, first + 1, second);
        let frames: Option<u64> = if second < chars.len() {
            let third: usize = text::find_letter(&chars, ':', second + 1);
            read_field(&chars, second + 1, third)
        } else {
            Some(0)
        };
        match (minutes, seconds, frames) {
            (Some(m), Some(s), Some(f)) => {
                let value: u128 = m as u128 * 4500 + s as u128 * 75 + f as u128;
                if value <= u64::MAX as u128 {
                    Some(CueTime(value as u64))
                } else {
                    None
                }
            },
            _ => None,
        }
    }
}

/// At a DSD rate a boundary loses nothing: every rate that is a multiple of 44.1 or 48 kHz
/// has a whole number of bytes in each cue frame.
pub proof fn cue_frames_are_whole_dsd_bytes(time: u64, multiplier: int, base: int)
    requires
        0 <= multiplier,
        base == 44_100 && multiplier % 2 == 0 || base == 48_000,
    ensures
        (time * (multiplier * base)) % 600 == 0,
        time * (multiplier * base) / 600 * 600 == time * (multiplier * base),
{
    let rate = multiplier * base;
    assert(rate % 600 == 0) by {
        if base == 48_000 {
            assert(rate == 600 * (multiplier * 80)) by (nonlinear_arith)
                requires
                    rate == multiplier * 48_000,
            ;
        } else {
            let half = multiplier / 2;
            assert(rate == 600 * (half * 147)) by (nonlinear_arith)
                requires
                    rate == multiplier * 44_100,
                    multiplier == half * 2,
            ;
        }
    }
    let per = rate / 600;
    assert(rate == per * 600);
    assert(time * rate == (time * per) * 600) by (nonlinear_arith)
        requires
            rate == per * 600,
    ;
}

/// White space that separates the words of a line.
pub open spec fn is_blank(letter: char) -> bool {
    letter == ' ' || letter == '\t' || letter == '\n' || letter == '\x0C' || letter == '\r'
}

fn blank(letter: char) -> (yes: bool)
    ensures
        yes == is_blank(letter),
{
    letter == ' ' || letter == '\t' || letter == '\n' || letter == '\x0C' || letter == '\r'
}

/// Where the word that covers `at` ends.
pub open spec fn word_end(line: Seq<char>, at: int) -> int
    decreases line.len() - at,
{
    if at >= line.len() || is_blank(line[at]) {
        at
    } else {
        word_end(line, at + 1)
    }
}

proof fn lemma_word_end(line: Seq<char>, at: int)
    ensures
        at <= line.len() ==> at <= word_end(line, at) <= line.len(),
        at < line.len() && !is_blank(line[at]) ==> at < word_end(line, at),
    decreases line.len() - at,
{
    if at < line.len() && !is_blank(line[at]) {
        lemma_word_end(line, at + 1);
    }
}

/// The words of a line from `at` on, a quoted one kept whole. A quote that never closes runs
/// to the end of the line.
pub open spec fn words(line: Seq<char>, at: int) -> Seq<Seq<char>>
    decreases line.len() - at,
    via words_decreases
{
    if at >= line.len() {
        Seq::empty()
    } else if is_blank(line[at]) {
        words(line, at + 1)
    } else if line[at] == '"' {
        let end = text::letter_at(line, '"', at + 1);
        seq![line.subrange(at + 1, end)] + words(
            line,
            if end < line.len() {
                end + 1
            } else {
                end
            },
        )
    } else {
        let end = word_end(line, at);
        seq![line.subrange(at, end)] + words(line, end)
    }
}

#[via_fn]
proof fn words_decreases(line: Seq<char>, at: int) {
    text::lemma_letter_at(line, '"', at + 1);
    lemma_word_end(line, at);
}

/// A list of texts as characters.
pub open spec fn texts_view(texts: Seq<String>) -> Seq<Seq<char>> {
    texts.map_values(|text: String| text@)
}

/// Split a line into its command and arguments, keeping a quoted argument whole.
pub fn tokenise(line: &str) -> (tokens: Vec<String>)
    ensures
        texts_view(tokens@) == words(line@, 0),
{
    let chars: Vec<char> = text::chars_of(line);
    split_words(&chars)
}

fn split_words(chars: &Vec<char>) -> (tokens: Vec<String>)
    ensures
        texts_view(tokens@) == words(chars@, 0),
{
    let ghost whole = words(chars@, 0);
    let mut tokens: Vec<String> = Vec::new();
    let mut index: usize = 0;
    assert(texts_view(tokens@) + whole =~= whole);
    while index < chars.len()
        invariant
            index <= chars@.len(),
            whole == texts_view(tokens@) + words(chars@, index as int),
        decreases chars@.len() - index,
    {
        let ghost before = tokens@;
        if blank(chars[index]) {
            index += 1;
        } else if chars[index] == '"' {
            let end: usize = text::find_letter(chars, '"', index + 1);
            tokens.push(text::text_between(chars, index + 1, end));
            let ghost token = chars@.subrange(index + 1, end as int);
            let next: usize = if end < chars.len() {
                end + 1
            } else {
                end
            };
            assert(texts_view(tokens@) =~= texts_view(before).push(token));
            assert(whole =~= texts_view(tokens@) + words(chars@, next as int));
            index = next;
        } else {
            let start: usize = index;
            let mut end: usize = index;
            while end < chars.len() && !blank(chars[end])
                invariant
                    start <= end <= chars@.len(),
                    word_end(chars@, start as int) == word_end(chars@, end as int),
                decreases chars@.len() - end,
            {
                end += 1;
            }
            proof {
                lemma_word_end(chars@, start as int);
            }
            tokens.push(text::text_between(chars, start, end));
            assert(texts_view(tokens@) =~= texts_view(before).push(
                chars@.subrange(start as int, end as int),
            ));
            assert(whole =~= texts_view(tokens@) + words(chars@, end as int));
            index = end;
        }
    }
    assert(texts_view(tokens@) =~= whole);
    tokens
}

/// One track of a sheet: where in which file it starts, where it ends, and what it is called.
#[derive(Debug, PartialEq, Eq)]
pub struct CueTrack {
    pub number: u32,
    /// The audio file this track sits in, resolved next to the sheet.
    pub file: String,
    pub start: CueTime,
    /// Where the next track of the same file starts. `None` for the last track of a file,
    /// which runs to the end of it.
    pub end: Option<CueTime>,
    pub tags: TrackTags,
}

/// The same as characters.
#[verifier::ext_equal]
pub struct Track {
    pub number: u32,
    pub file: Seq<char>,
    pub start: CueTime,
    pub end: Option<CueTime>,
    pub tags: Tags,
}

impl View for CueTrack {
    type V = Track;

    open spec fn view(&self) -> Track {
        Track {
            number: self.number,
            file: self.file@,
            start: self.start,
            end: self.end,
            tags: self.tags@,
        }
    }
}

/// A list of tracks as characters.
pub open spec fn tracks_view(tracks: Seq<CueTrack>) -> Seq<Track> {
    tracks.map_values(|track: CueTrack| track@)
}

impl CueTrack {
    /// The same track once more.
    pub fn copy(&self) -> (out: Self)
        ensures
            out@ == self@,
    {
        CueTrack {
            number: self.number,
            file: text::owned(self.file.as_str()),
            start: self.start,
            end: self.end,
            tags: self.tags.copy(),
        }
    }
}

/// What has been read so far about one track, before the next track says where it ends.
struct Pending {
    number: u32,
    file: String,
    /// Which `FILE` the track belongs to, so a sheet naming several does not run a track
    /// on into the start time of one in the next file.
    file_index: usize,
    index0: Option<CueTime>,
    index1: Option<CueTime>,
    tags: TrackTags,
}

/// The same as characters.
#[verifier::ext_equal]
pub struct Open {
    pub number: u32,
    pub file: Seq<char>,
    pub file_index: int,
    pub index0: Option<CueTime>,
    pub index1: Option<CueTime>,
    pub tags: Tags,
}

impl Pending {
    spec fn view(self) -> Open {
        Open {
            number: self.number,
            file: self.file@,
            file_index: self.file_index as int,
            index0: self.index0,
            index1: self.index1,
            tags: self.tags@,
        }
    }

    /// Where the audio starts: the track proper, or the pregap for a sheet that gives no
    /// `INDEX 01`.
    fn start(&self) -> (start: Option<CueTime>)
        ensures
            start == self@.start(),
    {
        match self.index1 {
            Some(time) => Some(time),
            None => self.index0,
        }
    }
}

impl Open {
    /// Where the audio starts: the track proper, or the pregap for a sheet that gives no
    /// `INDEX 01`.
    pub open spec fn start(self) -> Option<CueTime> {
        match self.index1 {
            Some(time) => Some(time),
            None => self.index0,
        }
    }

    /// The finished track. One with no start time at all describes nothing playable.
    pub open spec fn finished(self, end: Option<CueTime>, album: Tags) -> Option<Track> {
        match self.start() {
            None => None,
            Some(start) => Some(
                Track {
                    number: self.number,
                    file: self.file,
                    start,
                    end,
                    tags: Tags {
                        title: self.tags.title,
                        artist: if self.tags.artist is None {
                            album.artist
                        } else {
                            self.tags.artist
                        },
                        album: album.album,
                        track: Some(self.number),
                    },
                },
            ),
        }
    }
}

spec fn pending_view(pending: Seq<Pending>) -> Seq<Open> {
    pending.map_values(|one: Pending| one@)
}

/// Everything read so far.
#[verifier::ext_equal]
pub struct Reading {
    pub album: Tags,
    pub pending: Seq<Open>,
    pub file: Option<Seq<char>>,
    pub file_index: int,
    /// The lines being read describe a data track.
    pub data_track: bool,
}

/// Nothing read yet.
pub open spec fn reading_start() -> Reading {
    Reading {
        album: tags::no_tags(),
        pending: Seq::empty(),
        file: None,
        file_index: 0,
        data_track: false,
    }
}

/// A name as a sheet writes it, with the separators this player uses.
pub open spec fn slashed(name: Seq<char>) -> Seq<char> {
    name.map_values(
        |letter: char|
            if letter == '\\' {
                '/'
            } else {
                letter
            },
    )
}

/// Where a sheet's `FILE` may be: beside the sheet under the name it gives, or under the same
/// stem in a container this player reads.
pub open spec fn candidates(dir: Seq<char>, name: Seq<char>) -> Seq<Seq<char>> {
    let named = path::joined(dir, slashed(name));
    seq![
        named,
        path::with_extension(named, "dsf"@),
        path::with_extension(named, "dff"@),
        path::with_extension(named, "flac"@),
    ]
}

/// The first candidate that is present, or the name the sheet gives where none is.
pub open spec fn resolved(dir: Seq<char>, name: Seq<char>, present: Seq<Seq<char>>) -> Seq<char> {
    let places = candidates(dir, name);
    if present.contains(places[0]) {
        places[0]
    } else if present.contains(places[1]) {
        places[1]
    } else if present.contains(places[2]) {
        places[2]
    } else if present.contains(places[3]) {
        places[3]
    } else {
        places[0]
    }
}

impl Reading {
    /// After a `TRACK` line. An audio track starts collecting its own tags. A data track is
    /// skipped, so that the audio tracks either side of it keep their numbers.
    pub open spec fn track(self, arguments: Seq<Seq<char>>) -> Result<Reading, CueFault> {
        if arguments.len() < 2 {
            Err(CueFault::TrackIncomplete)
        } else if !text::same_letters(arguments[1], "AUDIO"@) {
            Ok(Reading { data_track: true, ..self })
        } else {
            match text::parsed(arguments[0], u32::MAX as int) {
                None => Err(CueFault::TrackNumber { text: arguments[0] }),
                Some(number) => match self.file {
                    None => Err(CueFault::TrackBeforeFile { number: number as u32 }),
                    Some(file) => Ok(
                        Reading {
                            pending: self.pending.push(
                                Open {
                                    number: number as u32,
                                    file,
                                    file_index: self.file_index,
                                    index0: None,
                                    index1: None,
                                    tags: tags::no_tags(),
                                },
                            ),
                            data_track: false,
                            ..self
                        },
                    ),
                },
            }
        }
    }

    /// After a `TITLE` or `PERFORMER` line. Text before the first track names the album; text
    /// after one names that track.
    pub open spec fn named(self, arguments: Seq<Seq<char>>, title: bool) -> Reading {
        if arguments.len() == 0 || self.data_track || text::trimmed(arguments[0]).len() == 0 {
            self
        } else {
            let name = Some(text::trimmed(arguments[0]));
            if self.pending.len() == 0 {
                Reading {
                    album: if title {
                        Tags { title: name, ..self.album }
                    } else {
                        Tags { artist: name, ..self.album }
                    },
                    ..self
                }
            } else {
                let last = self.pending.len() - 1;
                let track = self.pending[last];
                Reading {
                    pending: self.pending.update(
                        last,
                        Open {
                            tags: if title {
                                Tags { title: name, ..track.tags }
                            } else {
                                Tags { artist: name, ..track.tags }
                            },
                            ..track
                        },
                    ),
                    ..self
                }
            }
        }
    }

    /// After an `INDEX` line, which says where the track, or the gap before it, starts.
    pub open spec fn index(self, arguments: Seq<Seq<char>>) -> Result<Reading, CueFault> {
        if arguments.len() < 2 || self.data_track || self.pending.len() == 0 {
            Ok(self)
        } else {
            match time_of(arguments[1]) {
                None => Err(CueFault::Time { text: arguments[1] }),
                Some(value) => {
                    let last = self.pending.len() - 1;
                    let track = self.pending[last];
                    let number = text::parsed(arguments[0], u32::MAX as int);
                    if number == Some(0nat) {
                        Ok(
                            Reading {
                                pending: self.pending.update(
                                    last,
                                    Open { index0: Some(CueTime(value)), ..track },
                                ),
                                ..self
                            },
                        )
                    } else if number == Some(1nat) {
                        Ok(
                            Reading {
                                pending: self.pending.update(
                                    last,
                                    Open { index1: Some(CueTime(value)), ..track },
                                ),
                                ..self
                            },
                        )
                    } else {
                        Ok(self)
                    }
                },
            }
        }
    }

    /// After one more line of a sheet that lies in `dir`.
    pub open spec fn line(
        self,
        tokens: Seq<Seq<char>>,
        dir: Seq<char>,
        present: Seq<Seq<char>>,
    ) -> Result<Reading, CueFault> {
        if tokens.len() == 0 {
            Ok(self)
        } else {
            let arguments = tokens.skip(1);
            if text::same_letters(tokens[0], "FILE"@) {
                if arguments.len() == 0 {
                    Err(CueFault::FileUnnamed)
                } else {
                    Ok(
                        Reading {
                            file: Some(resolved(dir, arguments[0], present)),
                            file_index: self.file_index + 1,
                            ..self
                        },
                    )
                }
            } else if text::same_letters(tokens[0], "TRACK"@) {
                self.track(arguments)
            } else if text::same_letters(tokens[0], "TITLE"@) {
                Ok(self.named(arguments, true))
            } else if text::same_letters(tokens[0], "PERFORMER"@) {
                Ok(self.named(arguments, false))
            } else if text::same_letters(tokens[0], "INDEX"@) {
                self.index(arguments)
            } else {
                Ok(self)
            }
        }
    }
}

/// The line that starts at `from`, without its line ending.
pub open spec fn line_at(text: Seq<char>, from: int) -> Seq<char> {
    let end = text::letter_at(text, '\n', from);
    if from < end < text.len() && text[end - 1] == '\r' {
        text.subrange(from, end - 1)
    } else {
        text.subrange(from, end)
    }
}

/// Everything read once the lines from `from` on are read too.
pub open spec fn sheet_reading(
    text: Seq<char>,
    from: int,
    reading: Reading,
    dir: Seq<char>,
    present: Seq<Seq<char>>,
) -> Result<Reading, CueFault>
    decreases text.len() + 1 - from,
    via sheet_reading_decreases
{
    if from >= text.len() {
        Ok(reading)
    } else {
        match reading.line(words(line_at(text, from), 0), dir, present) {
            Err(fault) => Err(fault),
            Ok(next) => sheet_reading(
                text,
                text::letter_at(text, '\n', from) + 1,
                next,
                dir,
                present,
            ),
        }
    }
}

#[via_fn]
proof fn sheet_reading_decreases(
    text: Seq<char>,
    from: int,
    reading: Reading,
    dir: Seq<char>,
    present: Seq<Seq<char>>,
) {
    text::lemma_letter_at(text, '\n', from);
}

/// The first start among the tracks from `from` on that are of one file.
pub open spec fn next_start(pending: Seq<Open>, file_index: int, from: int) -> Option<CueTime>
    decreases pending.len() - from,
{
    if from < 0 || from >= pending.len() {
        None
    } else if pending[from].file_index == file_index && pending[from].start() is Some {
        pending[from].start()
    } else {
        next_start(pending, file_index, from + 1)
    }
}

/// Where a track ends: at the start of the next one in the same file. One that has no start of
/// its own is not a track of it.
pub open spec fn end_of(pending: Seq<Open>, index: int) -> Option<CueTime> {
    next_start(pending, pending[index].file_index, index + 1)
}

/// The finished tracks from `index` on. A track with no start time at all drops out rather
/// than playing the rest of the file.
pub open spec fn linked(pending: Seq<Open>, album: Tags, index: int) -> Seq<Track>
    decreases pending.len() - index,
{
    if index >= pending.len() {
        Seq::empty()
    } else {
        match pending[index].finished(end_of(pending, index), album) {
            Some(track) => seq![track] + linked(pending, album, index + 1),
            None => linked(pending, album, index + 1),
        }
    }
}

/// The tracks a sheet lists. Its album title names the album; a track's own `TITLE` is what
/// names the track.
pub open spec fn sheet_tracks(
    text: Seq<char>,
    dir: Seq<char>,
    present: Seq<Seq<char>>,
) -> Result<Seq<Track>, CueFault> {
    match sheet_reading(text, 0, reading_start(), dir, present) {
        Err(fault) => Err(fault),
        Ok(reading) => Ok(
            linked(
                reading.pending,
                Tags { album: reading.album.title, title: None, ..reading.album },
                0,
            ),
        ),
    }
}

/// Places of the tracks from `index` on that have a start.
pub open spec fn kept(pending: Seq<Open>, index: int) -> Seq<int>
    decreases pending.len() - index,
{
    if index < 0 || index >= pending.len() {
        Seq::empty()
    } else if pending[index].start() is Some {
        seq![index] + kept(pending, index + 1)
    } else {
        kept(pending, index + 1)
    }
}

/// Of every sheet that reads, the tracks with a start time are its tracks, in its order. Each
/// ends where the next of them starts, if that one is in the same file, and runs on to the end
/// of its file if it is not, or if there is none.
pub proof fn tracks_meet_where_the_sheet_says(
    text: Seq<char>,
    dir: Seq<char>,
    present: Seq<Seq<char>>,
)
    requires
        sheet_tracks(text, dir, present) is Ok,
    ensures
        ({
            let pending = sheet_reading(text, 0, reading_start(), dir, present)->Ok_0.pending;
            let places = kept(pending, 0);
            let tracks = sheet_tracks(text, dir, present)->Ok_0;
            &&& tracks.len() == places.len()
            &&& forall|i: int|
                0 <= i < tracks.len() ==> {
                    let track = #[trigger] tracks[i];
                    let open = pending[places[i]];
                    &&& track.number == open.number
                    &&& track.file == open.file
                    &&& Some(track.start) == open.start()
                    &&& track.end == if i + 1 < tracks.len() && pending[places[i + 1]].file_index
                        == open.file_index {
                        Some(tracks[i + 1].start)
                    } else {
                        None
                    }
                }
        }),
{
    let reading = sheet_reading(text, 0, reading_start(), dir, present)->Ok_0;
    let album = Tags { album: reading.album.title, title: None, ..reading.album };
    let pending = reading.pending;
    let places = kept(pending, 0);
    let tracks = linked(pending, album, 0);
    lemma_file_order(text, 0, reading_start(), dir, present);
    lemma_linked(pending, album, 0);
    assert forall|i: int| 0 <= i < tracks.len() implies {
        let track = #[trigger] tracks[i];
        let open = pending[places[i]];
        &&& track.number == open.number
        &&& track.file == open.file
        &&& Some(track.start) == open.start()
        &&& track.end == if i + 1 < tracks.len() && pending[places[i + 1]].file_index
            == open.file_index {
            Some(tracks[i + 1].start)
        } else {
            None
        }
    } by {
        let place = places[i];
        assert(Some(tracks[i]) == pending[place].finished(end_of(pending, place), album));
        if i + 1 < tracks.len() {
            let next = places[i + 1];
            assert(Some(tracks[i + 1]) == pending[next].finished(end_of(pending, next), album));
            lemma_next_start(pending, pending[place].file_index, place + 1, next);
        } else {
            lemma_next_start(pending, pending[place].file_index, place + 1, pending.len() as int);
        }
    }
}

/// Files come one after the other.
spec fn in_file_order(reading: Reading) -> bool {
    &&& forall|i: int, j: int|
        0 <= i <= j < reading.pending.len() ==> (#[trigger] reading.pending[i]).file_index <= (
        #[trigger] reading.pending[j]).file_index
    &&& forall|i: int|
        0 <= i < reading.pending.len() ==> (#[trigger] reading.pending[i]).file_index
            <= reading.file_index
}

proof fn lemma_file_order(
    text: Seq<char>,
    from: int,
    reading: Reading,
    dir: Seq<char>,
    present: Seq<Seq<char>>,
)
    requires
        in_file_order(reading),
        sheet_reading(text, from, reading, dir, present) is Ok,
    ensures
        in_file_order(sheet_reading(text, from, reading, dir, present)->Ok_0),
    decreases text.len() + 1 - from,
{
    if from < text.len() {
        let tokens = words(line_at(text, from), 0);
        let next = reading.line(tokens, dir, present)->Ok_0;
        assert(in_file_order(next));
        text::lemma_letter_at(text, '\n', from);
        lemma_file_order(text, text::letter_at(text, '\n', from) + 1, next, dir, present);
    }
}

proof fn lemma_next_start(pending: Seq<Open>, file_index: int, from: int, next: int)
    requires
        0 <= from <= next <= pending.len(),
        forall|k: int| from <= k < next ==> (#[trigger] pending[k]).start() is None,
        forall|i: int, j: int|
            0 <= i <= j < pending.len() ==> (#[trigger] pending[i]).file_index <= (
            #[trigger] pending[j]).file_index,
        next < pending.len() ==> pending[next].start() is Some && file_index
            <= pending[next].file_index,
    ensures
        next_start(pending, file_index, from) == if next < pending.len()
            && pending[next].file_index == file_index {
            pending[next].start()
        } else {
            None
        },
    decreases pending.len() - from,
{
    if from < next {
        lemma_next_start(pending, file_index, from + 1, next);
    } else if from < pending.len() && pending[from].file_index != file_index {
        lemma_none_behind(pending, file_index, from);
    }
}

proof fn lemma_none_behind(pending: Seq<Open>, file_index: int, from: int)
    requires
        0 <= from,
        forall|i: int|
            from <= i < pending.len() ==> (#[trigger] pending[i]).file_index > file_index,
    ensures
        next_start(pending, file_index, from) is None,
    decreases pending.len() - from,
{
    if from < pending.len() {
        lemma_none_behind(pending, file_index, from + 1);
    }
}

proof fn lemma_linked(pending: Seq<Open>, album: Tags, from: int)
    requires
        0 <= from <= pending.len(),
    ensures
        linked(pending, album, from).len() == kept(pending, from).len(),
        forall|k: int|
            0 <= k < kept(pending, from).len() ==> {
                let place = #[trigger] kept(pending, from)[k];
                &&& from <= place < pending.len()
                &&& pending[place].start() is Some
                &&& Some(linked(pending, album, from)[k]) == pending[place].finished(
                    end_of(pending, place),
                    album,
                )
                &&& forall|j: int|
                    place < j < (if k + 1 < kept(pending, from).len() {
                        kept(pending, from)[k + 1]
                    } else {
                        pending.len() as int
                    }) ==> (#[trigger] pending[j]).start() is None
                &&& k + 1 < kept(pending, from).len() ==> place < kept(pending, from)[k + 1]
            },
        forall|j: int|
            from <= j < (if kept(pending, from).len() > 0 {
                kept(pending, from)[0]
            } else {
                pending.len() as int
            }) ==> (#[trigger] pending[j]).start() is None,
    decreases pending.len() - from,
{
    if from < pending.len() {
        lemma_linked(pending, album, from + 1);
        let rest = kept(pending, from + 1);
        let places = kept(pending, from);
        let tracks = linked(pending, album, from);
        if pending[from].start() is Some {
            assert forall|k: int| 0 <= k < places.len() implies {
                let place = #[trigger] places[k];
                &&& from <= place < pending.len()
                &&& pending[place].start() is Some
                &&& Some(tracks[k]) == pending[place].finished(end_of(pending, place), album)
                &&& forall|j: int|
                    place < j < (if k + 1 < places.len() {
                        places[k + 1]
                    } else {
                        pending.len() as int
                    }) ==> (#[trigger] pending[j]).start() is None
                &&& k + 1 < places.len() ==> place < places[k + 1]
            } by {
                if k > 0 {
                    assert(places[k] == rest[k - 1]);
                    assert(tracks[k] == linked(pending, album, from + 1)[k - 1]);
                }
                if k + 1 < places.len() {
                    assert(places[k + 1] == rest[k]);
                }
            }
        }
    }
}

fn with_slashes(name: &str) -> (out: String)
    ensures
        out@ == slashed(name@),
{
    let chars: Vec<char> = text::chars_of(name);
    let mut out: String = String::new();
    let mut i: usize = 0;
    while i < chars.len()
        invariant
            i <= chars@.len(),
            chars@ == name@,
            out@ == slashed(name@).take(i as int),
        decreases chars@.len() - i,
    {
        if chars[i] == '\\' {
            out.push('/');
        } else {
            out.push(chars[i]);
        }
        i += 1;
        assert(out@ =~= slashed(name@).take(i as int));
    }
    assert(out@ =~= slashed(name@));
    out
}

/// Whether a text is in a list.
pub fn listed(texts: &Vec<String>, text: &str) -> (yes: bool)
    ensures
        yes == texts_view(texts@).contains(text@),
{
    let wanted: String = text::owned(text);
    let mut i: usize = 0;
    while i < texts.len()
        invariant
            i <= texts@.len(),
            wanted@ == text@,
            forall|k: int| 0 <= k < i ==> texts_view(texts@)[k] != text@,
        decreases texts@.len() - i,
    {
        if texts[i] == wanted {
            assert(texts_view(texts@)[i as int] == text@);
            return true;
        }
        i += 1;
    }
    false
}

/// Where a sheet's `FILE` may be: beside the sheet under the name it gives, or under the same
/// stem in a container this player reads, for a rip whose sheet still names the source.
pub fn places_for(dir: &str, name: &str) -> (out: Vec<String>)
    ensures
        texts_view(out@) == candidates(dir@, name@),
{
    let named: String = path::join(dir, with_slashes(name).as_str());
    let dsf: String = path::replace_extension(named.as_str(), "dsf");
    let dff: String = path::replace_extension(named.as_str(), "dff");
    let flac: String = path::replace_extension(named.as_str(), "flac");
    let out: Vec<String> = vec![named, dsf, dff, flac];
    assert(texts_view(out@) =~= candidates(dir@, name@));
    out
}

/// Where a sheet's `FILE` actually is, given which of its places are present.
pub fn resolve(dir: &str, name: &str, present: &Vec<String>) -> (out: String)
    ensures
        out@ == resolved(dir@, name@, texts_view(present@)),
{
    let places: Vec<String> = places_for(dir, name);
    let ghost seen = texts_view(places@);
    assert(seen.len() == 4);
    assert(seen[0] == places@[0]@ && seen[1] == places@[1]@ && seen[2] == places@[2]@ && seen[3]
        == places@[3]@);
    let mut i: usize = 0;
    while i < 4
        invariant
            i <= 4,
            places@.len() == 4,
            seen == texts_view(places@),
            seen == candidates(dir@, name@),
            seen[0] == places@[0]@ && seen[1] == places@[1]@ && seen[2] == places@[2]@ && seen[3]
                == places@[3]@,
            forall|k: int| 0 <= k < i ==> !texts_view(present@).contains(#[trigger] seen[k]),
        decreases 4 - i,
    {
        if listed(present, places[i].as_str()) {
            proof {
                if i > 0 {
                    assert(!texts_view(present@).contains(seen[0]));
                }
                if i > 1 {
                    assert(!texts_view(present@).contains(seen[1]));
                }
                if i > 2 {
                    assert(!texts_view(present@).contains(seen[2]));
                }
            }
            return text::owned(places[i].as_str());
        }
        i += 1;
    }
    assert(!texts_view(present@).contains(seen[0]));
    assert(!texts_view(present@).contains(seen[1]));
    assert(!texts_view(present@).contains(seen[2]));
    assert(!texts_view(present@).contains(seen[3]));
    text::owned(places[0].as_str())
}

/// What has been read so far of a sheet.
struct Reader {
    album: TrackTags,
    pending: Vec<Pending>,
    file: Option<String>,
    file_index: usize,
    data_track: bool,
}

impl Reader {
    spec fn view(self) -> Reading {
        Reading {
            album: self.album@,
            pending: pending_view(self.pending@),
            file: text::option_view(self.file),
            file_index: self.file_index as int,
            data_track: self.data_track,
        }
    }

    fn new() -> (out: Self)
        ensures
            out@ == reading_start(),
    {
        let out: Reader = Reader {
            album: TrackTags::default(),
            pending: Vec::new(),
            file: None,
            file_index: 0,
            data_track: false,
        };
        assert(out@.pending =~= Seq::empty());
        out
    }

    /// An audio track starts collecting its own tags. A data track is skipped, so that the
    /// audio tracks either side of it keep their numbers and the data never plays.
    fn open_track(&mut self, tokens: &Vec<String>) -> (out: Result<(), CueError>)
        requires
            tokens@.len() > 0,
        ensures
            match old(self)@.track(texts_view(tokens@).skip(1)) {
                Ok(next) => out is Ok && final(self)@ == next,
                Err(fault) => out matches Err(error) && error@ == fault,
            },
    {
        let ghost arguments = texts_view(tokens@).skip(1);
        if tokens.len() < 3 {
            return Err(CueError::TrackIncomplete);
        }
        assert(arguments[0] == tokens@[1]@ && arguments[1] == tokens@[2]@);
        if !text::eq_ignore_ascii_case(tokens[2].as_str(), "AUDIO") {
            self.data_track = true;
            return Ok(());
        }
        let number: u32 = match text::parse_u32(tokens[1].as_str()) {
            Some(number) => number,
            None => {
                return Err(CueError::TrackNumber { text: text::owned(tokens[1].as_str()) });
            },
        };
        let file: String = match &self.file {
            Some(file) => text::owned(file.as_str()),
            None => {
                return Err(CueError::TrackBeforeFile { number });
            },
        };
        let ghost before = self.pending@;
        let track: Pending = Pending {
            number,
            file,
            file_index: self.file_index,
            index0: None,
            index1: None,
            tags: TrackTags::default(),
        };
        let ghost added = track@;
        self.pending.push(track);
        self.data_track = false;
        assert(pending_view(self.pending@) =~= pending_view(before).push(added));
        Ok(())
    }

    /// Text before the first track names the album; text after one names that track.
    fn assign(&mut self, tokens: &Vec<String>, title: bool)
        requires
            tokens@.len() > 0,
        ensures
            final(self)@ == old(self)@.named(texts_view(tokens@).skip(1), title),
    {
        let ghost arguments = texts_view(tokens@).skip(1);
        if tokens.len() < 2 || self.data_track {
            return;
        }
        assert(arguments[0] == tokens@[1]@);
        let name: String = text::trim(tokens[1].as_str());
        if name.as_str().is_empty() {
            return;
        }
        let count: usize = self.pending.len();
        if count == 0 {
            if title {
                self.album.title = Some(name);
            } else {
                self.album.artist = Some(name);
            }
            return;
        }
        let ghost before = self.pending@;
        if title {
            self.pending[count - 1].tags.title = Some(name);
        } else {
            self.pending[count - 1].tags.artist = Some(name);
        }
        assert(pending_view(self.pending@) =~= pending_view(before).update(
            count - 1,
            self.pending@[count - 1]@,
        ));
    }

    fn set_index(&mut self, tokens: &Vec<String>) -> (out: Result<(), CueError>)
        requires
            tokens@.len() > 0,
        ensures
            match old(self)@.index(texts_view(tokens@).skip(1)) {
                Ok(next) => out is Ok && final(self)@ == next,
                Err(fault) => out matches Err(error) && error@ == fault,
            },
    {
        let ghost arguments = texts_view(tokens@).skip(1);
        let count: usize = self.pending.len();
        if tokens.len() < 3 || self.data_track || count == 0 {
            return Ok(());
        }
        assert(arguments[0] == tokens@[1]@ && arguments[1] == tokens@[2]@);
        let time: CueTime = match CueTime::parse(tokens[2].as_str()) {
            Ok(time) => time,
            Err(error) => {
                return Err(error);
            },
        };
        let ghost before = self.pending@;
        match text::parse_u32(tokens[1].as_str()) {
            Some(0) => {
                self.pending[count - 1].index0 = Some(time);
            },
            Some(1) => {
                self.pending[count - 1].index1 = Some(time);
            },
            _ => {
                return Ok(());
            },
        }
        assert(pending_view(self.pending@) =~= pending_view(before).update(
            count - 1,
            self.pending@[count - 1]@,
        ));
        Ok(())
    }

    fn line(&mut self, tokens: &Vec<String>, dir: &str, present: &Vec<String>) -> (out: Result<
        (),
        CueError,
    >)
        requires
            old(self).file_index < usize::MAX,
        ensures
            match old(self)@.line(texts_view(tokens@), dir@, texts_view(present@)) {
                Ok(next) => out is Ok && final(self)@ == next,
                Err(fault) => out matches Err(error) && error@ == fault,
            },
            out is Ok ==> final(self).file_index <= old(self).file_index + 1,
    {
        if tokens.len() == 0 {
            return Ok(());
        }
        let ghost before = *self;
        let ghost seen = texts_view(tokens@);
        assert(seen[0] == tokens@[0]@);
        let command: &str = tokens[0].as_str();
        if text::eq_ignore_ascii_case(command, "FILE") {
            if tokens.len() < 2 {
                return Err(CueError::FileUnnamed);
            }
            assert(seen.skip(1)[0] == tokens@[1]@);
            self.file = Some(resolve(dir, tokens[1].as_str(), present));
            self.file_index = self.file_index + 1;
            return Ok(());
        }
        if text::eq_ignore_ascii_case(command, "TRACK") {
            let out: Result<(), CueError> = self.open_track(tokens);
            assert(out is Ok ==> self@.file_index == before@.file_index);
            return out;
        }
        if text::eq_ignore_ascii_case(command, "TITLE") {
            self.assign(tokens, true);
            assert(self@.file_index == before@.file_index);
            return Ok(());
        }
        if text::eq_ignore_ascii_case(command, "PERFORMER") {
            self.assign(tokens, false);
            assert(self@.file_index == before@.file_index);
            return Ok(());
        }
        if text::eq_ignore_ascii_case(command, "INDEX") {
            let out: Result<(), CueError> = self.set_index(tokens);
            assert(out is Ok ==> self@.file_index == before@.file_index);
            return out;
        }
        Ok(())
    }
}

fn start_after(pending: &Vec<Pending>, file_index: usize, from: usize) -> (start: Option<CueTime>)
    ensures
        start == next_start(pending_view(pending@), file_index as int, from as int),
{
    let ghost open = pending_view(pending@);
    let mut index: usize = from;
    while index < pending.len()
        invariant
            from <= index,
            open == pending_view(pending@),
            next_start(open, file_index as int, from as int) == next_start(
                open,
                file_index as int,
                index as int,
            ),
        decreases pending@.len() - index,
    {
        assert(open[index as int] == pending@[index as int]@);
        if pending[index].file_index == file_index {
            let start: Option<CueTime> = pending[index].start();
            if start.is_some() {
                return start;
            }
        }
        index += 1;
    }
    None
}

/// Close each track at the start of the next one in the same file.
fn link(pending: &Vec<Pending>, album: &TrackTags) -> (tracks: Vec<CueTrack>)
    ensures
        tracks_view(tracks@) == linked(pending_view(pending@), album@, 0),
{
    let ghost open = pending_view(pending@);
    let ghost whole = linked(open, album@, 0);
    let mut tracks: Vec<CueTrack> = Vec::new();
    let mut index: usize = 0;
    assert(tracks_view(tracks@) + whole =~= whole);
    while index < pending.len()
        invariant
            index <= pending@.len(),
            open == pending_view(pending@),
            whole == tracks_view(tracks@) + linked(open, album@, index as int),
        decreases pending@.len() - index,
    {
        let ghost before = tracks@;
        let track: &Pending = &pending[index];
        assert(open[index as int] == track@);
        let end: Option<CueTime> = start_after(pending, track.file_index, index + 1);
        if let Some(start) = track.start() {
            let artist: Option<String> = match &track.tags.artist {
                Some(artist) => Some(text::owned(artist.as_str())),
                None => text::owned_option(&album.artist),
            };
            let done: CueTrack = CueTrack {
                number: track.number,
                file: text::owned(track.file.as_str()),
                start,
                end,
                tags: TrackTags {
                    title: text::owned_option(&track.tags.title),
                    artist,
                    album: text::owned_option(&album.album),
                    track: Some(track.number),
                },
            };
            let ghost added = done@;
            assert(Some(added) == open[index as int].finished(end, album@));
            tracks.push(done);
            assert(tracks_view(tracks@) =~= tracks_view(before).push(added));
        }
        index += 1;
        assert(whole =~= tracks_view(tracks@) + linked(open, album@, index as int));
    }
    assert(tracks_view(tracks@) =~= whole);
    tracks
}

/// Read a sheet's text into the tracks it lists. `dir` is the folder the sheet lies in, and
/// `present` are those of the places its `FILE` lines lead to that hold a file.
pub fn parse(text: &str, dir: &str, present: &Vec<String>) -> (out: Result<
    Vec<CueTrack>,
    CueError,
>)
    ensures
        match sheet_tracks(text@, dir@, texts_view(present@)) {
            Ok(tracks) => out matches Ok(list) && tracks_view(list@) == tracks,
            Err(fault) => out matches Err(error) && error@ == fault,
        },
{
    let chars: Vec<char> = text::chars_of(text);
    let ghost seen = texts_view(present@);
    let ghost whole = sheet_reading(chars@, 0, reading_start(), dir@, seen);
    let mut reader: Reader = Reader::new();
    let mut from: usize = 0;
    while from < chars.len()
        invariant
            from <= chars@.len(),
            chars@ == text@,
            seen == texts_view(present@),
            reader.file_index <= from,
            whole == sheet_reading(chars@, 0, reading_start(), dir@, seen),
            whole == sheet_reading(chars@, from as int, reader@, dir@, seen),
        decreases chars@.len() - from,
    {
        let end: usize = text::find_letter(&chars, '\n', from);
        let stop: usize = if from < end && end < chars.len() && chars[end - 1] == '\r' {
            end - 1
        } else {
            end
        };
        let line: String = text::text_between(&chars, from, stop);
        assert(line@ == line_at(chars@, from as int));
        let tokens: Vec<String> = tokenise(line.as_str());
        match reader.line(&tokens, dir, present) {
            Ok(()) => {},
            Err(error) => {
                return Err(error);
            },
        }
        if end == chars.len() {
            assert(sheet_reading(chars@, end + 1, reader@, dir@, seen) == Ok::<Reading, CueFault>(
                reader@,
            ));
            assert(sheet_reading(chars@, end as int, reader@, dir@, seen) == Ok::<
                Reading,
                CueFault,
            >(reader@));
            from = end;
        } else {
            from = end + 1;
        }
    }
    let album: TrackTags = TrackTags {
        title: None,
        artist: text::owned_option(&reader.album.artist),
        album: text::owned_option(&reader.album.title),
        track: reader.album.track,
    };
    Ok(link(&reader.pending, &album))
}

/// The text of a sheet: UTF-8, with or without a byte order mark, or else Latin-1.
pub open spec fn sheet_text(raw: Seq<u8>) -> Seq<char> {
    let body = if raw.len() >= 3 && bytes::mark3(raw, 0, 0xEF, 0xBB, 0xBF) {
        raw.skip(3)
    } else {
        raw
    };
    if utf8::valid_utf8(body) {
        utf8::decode_utf8(body)
    } else {
        text::latin1(body)
    }
}

/// A sheet is written in whatever the ripper used. UTF-8 covers most of them, and the rest
/// are read as Latin-1, which at worst spells an accent wrong rather than failing to open.
pub fn text_of(raw: &[u8]) -> (out: String)
    ensures
        out@ == sheet_text(raw@),
{
    let start: usize = if raw.len() >= 3 && bytes::is_mark3(raw, 0, 0xEF, 0xBB, 0xBF) {
        3
    } else {
        0
    };
    let body: Vec<u8> = bytes::copy_between(raw, start, raw.len());
    assert(body@ =~= (if raw@.len() >= 3 && bytes::mark3(raw@, 0, 0xEF, 0xBB, 0xBF) {
        raw@.skip(3)
    } else {
        raw@
    }));
    match text::from_utf8(body.as_slice()) {
        Some(text) => text::owned(text),
        None => {
            let chars: Vec<char> = text::latin1_chars(body.as_slice(), 0, body.len());
            assert(body@.subrange(0, body@.len() as int) =~= body@);
            text::text_from(&chars)
        },
    }
}

/// The places that the `FILE` lines from `from` on lead to.
pub open spec fn named_places(text: Seq<char>, from: int, dir: Seq<char>) -> Seq<Seq<char>>
    decreases text.len() + 1 - from,
    via named_places_decreases
{
    if from >= text.len() {
        Seq::empty()
    } else {
        let tokens = words(line_at(text, from), 0);
        let here = if tokens.len() >= 2 && text::same_letters(tokens[0], "FILE"@) {
            candidates(dir, tokens[1])
        } else {
            Seq::empty()
        };
        here + named_places(text, text::letter_at(text, '\n', from) + 1, dir)
    }
}

#[via_fn]
proof fn named_places_decreases(text: Seq<char>, from: int, dir: Seq<char>) {
    text::lemma_letter_at(text, '\n', from);
}

/// Every place that a sheet's `FILE` lines may lead to, for looking up which hold a file.
pub fn places_in(text: &str, dir: &str) -> (out: Vec<String>)
    ensures
        texts_view(out@) == named_places(text@, 0, dir@),
{
    let chars: Vec<char> = text::chars_of(text);
    let ghost whole = named_places(chars@, 0, dir@);
    let mut out: Vec<String> = Vec::new();
    let mut from: usize = 0;
    assert(texts_view(out@) + whole =~= whole);
    while from < chars.len()
        invariant
            from <= chars@.len(),
            chars@ == text@,
            whole == texts_view(out@) + named_places(chars@, from as int, dir@),
        decreases chars@.len() - from,
    {
        let end: usize = text::find_letter(&chars, '\n', from);
        let stop: usize = if from < end && end < chars.len() && chars[end - 1] == '\r' {
            end - 1
        } else {
            end
        };
        let line: String = text::text_between(&chars, from, stop);
        assert(line@ == line_at(chars@, from as int));
        let tokens: Vec<String> = tokenise(line.as_str());
        let ghost seen = texts_view(tokens@);
        let ghost before = out@;
        let ghost here = Seq::<Seq<char>>::empty();
        if tokens.len() >= 2 {
            assert(seen[0] == tokens@[0]@ && seen[1] == tokens@[1]@);
            if text::eq_ignore_ascii_case(tokens[0].as_str(), "FILE") {
                let mut places: Vec<String> = places_for(dir, tokens[1].as_str());
                let ghost added = places@;
                proof {
                    here = texts_view(added);
                }
                out.append(&mut places);
                assert(texts_view(out@) =~= texts_view(before) + here);
            }
        }
        let ghost next = named_places(chars@, end + 1, dir@);
        assert(named_places(chars@, from as int, dir@) == here + next);
        assert(whole =~= texts_view(out@) + next);
        if end == chars.len() {
            assert(next =~= Seq::empty());
            assert(named_places(chars@, end as int, dir@) =~= Seq::empty());
            from = end;
        } else {
            from = end + 1;
        }
    }
    assert(texts_view(out@) =~= whole);
    out
}

/// A parsed cue sheet, with its tracks flattened across however many files it names.
#[derive(Debug, PartialEq, Eq)]
pub struct Sheet {
    pub path: String,
    pub tracks: Vec<CueTrack>,
}

/// The same as characters.
#[verifier::ext_equal]
pub struct Listing {
    pub path: Seq<char>,
    pub tracks: Seq<Track>,
}

impl View for Sheet {
    type V = Listing;

    open spec fn view(&self) -> Listing {
        Listing { path: self.path@, tracks: tracks_view(self.tracks@) }
    }
}

/// What a sheet's bytes list: some track, or why there is none.
pub open spec fn sheet_listing(
    path: Seq<char>,
    raw: Seq<u8>,
    present: Seq<Seq<char>>,
) -> Result<Listing, CueFault> {
    if raw.len() > MAX_SHEET_BYTES {
        Err(CueFault::TooLarge)
    } else {
        match sheet_tracks(sheet_text(raw), path::folder(path), present) {
            Err(fault) => Err(fault),
            Ok(tracks) => if tracks.len() == 0 {
                Err(CueFault::NoTracks)
            } else {
                Ok(Listing { path, tracks })
            },
        }
    }
}

/// The first track from `index` on with the number `number`.
pub open spec fn numbered(tracks: Seq<Track>, number: u32, index: int) -> Option<Track>
    decreases tracks.len() - index,
{
    if index >= tracks.len() {
        None
    } else if tracks[index].number == number {
        Some(tracks[index])
    } else {
        numbered(tracks, number, index + 1)
    }
}

/// The tracks from `index` on that lie in a file of this name.
pub open spec fn tracks_named(tracks: Seq<Track>, name: Seq<char>, index: int) -> Seq<Track>
    decreases tracks.len() - index,
{
    if index >= tracks.len() {
        Seq::empty()
    } else if path::file_name(tracks[index].file) == Some(name) {
        seq![tracks[index]] + tracks_named(tracks, name, index + 1)
    } else {
        tracks_named(tracks, name, index + 1)
    }
}

/// The tracks that lie in a file of the same name as `audio`.
pub open spec fn tracks_of(tracks: Seq<Track>, audio: Seq<char>) -> Seq<Track> {
    match path::file_name(audio) {
        Some(name) => tracks_named(tracks, name, 0),
        None => Seq::empty(),
    }
}

/// Track numbers from `index` on, with commas between them.
pub open spec fn numbers_text(tracks: Seq<Track>, index: int) -> Seq<char>
    decreases tracks.len() - index,
{
    if index >= tracks.len() {
        Seq::empty()
    } else if index + 1 == tracks.len() {
        text::decimal(tracks[index].number as nat)
    } else {
        text::decimal(tracks[index].number as nat) + ", "@ + numbers_text(tracks, index + 1)
    }
}

/// A list of borrowed tracks as characters.
pub open spec fn borrowed_view(tracks: Seq<&CueTrack>) -> Seq<Track> {
    tracks.map_values(|track: &CueTrack| track@)
}

impl Sheet {
    /// Read a sheet from its bytes. `present` are those of the places its `FILE` lines lead to
    /// that hold a file.
    pub fn read(path: &str, raw: &[u8], present: &Vec<String>) -> (out: Result<Self, CueError>)
        ensures
            match sheet_listing(path@, raw@, texts_view(present@)) {
                Ok(listing) => out matches Ok(sheet) && sheet@ == listing,
                Err(fault) => out matches Err(error) && error@ == fault,
            },
    {
        if raw.len() > MAX_SHEET_BYTES {
            return Err(CueError::TooLarge);
        }
        let text: String = text_of(raw);
        let dir: String = path::folder_of(path);
        match parse(text.as_str(), dir.as_str(), present) {
            Ok(tracks) => if tracks.len() == 0 {
                Err(CueError::NoTracks)
            } else {
                Ok(Sheet { path: text::owned(path), tracks })
            },
            Err(error) => Err(error),
        }
    }

    pub fn track(&self, number: u32) -> (out: Option<&CueTrack>)
        ensures
            match out {
                Some(track) => numbered(self@.tracks, number, 0) == Some(track@),
                None => numbered(self@.tracks, number, 0) is None,
            },
    {
        let mut i: usize = 0;
        while i < self.tracks.len()
            invariant
                i <= self.tracks@.len(),
                numbered(self@.tracks, number, 0) == numbered(self@.tracks, number, i as int),
            decreases self.tracks@.len() - i,
        {
            assert(self@.tracks[i as int] == self.tracks@[i as int]@);
            if self.tracks[i].number == number {
                return Some(&self.tracks[i]);
            }
            i += 1;
        }
        None
    }

    /// The track numbers the sheet gives, for saying which ones it does not.
    pub fn numbering(&self) -> (out: String)
        ensures
            out@ == numbers_text(self@.tracks, 0),
    {
        let ghost whole = numbers_text(self@.tracks, 0);
        let mut out: String = String::new();
        let mut i: usize = 0;
        assert(out@ + whole =~= whole);
        while i < self.tracks.len()
            invariant
                i <= self.tracks@.len(),
                whole == out@ + numbers_text(self@.tracks, i as int),
            decreases self.tracks@.len() - i,
        {
            let ghost before = out@;
            assert(self@.tracks[i as int] == self.tracks@[i as int]@);
            out.append(text::decimal_of(self.tracks[i].number as u64).as_str());
            if self.tracks.len() - i > 1 {
                out.append(", ");
            }
            i += 1;
            assert(whole =~= out@ + numbers_text(self@.tracks, i as int));
        }
        assert(out@ =~= whole);
        out
    }

    /// True when this sheet is the track list for `audio`.
    ///
    /// Only the file name is compared, because a sheet is looked for in the audio file's own
    /// folder and that is where its own `FILE` was resolved.
    pub fn covers(&self, audio: &str) -> (yes: bool)
        ensures
            yes == (tracks_of(self@.tracks, audio@).len() > 0),
    {
        let found: Vec<&CueTrack> = self.tracks_in(audio);
        assert(borrowed_view(found@).len() == found@.len());
        found.len() > 0
    }

    /// The tracks the sheet puts in one of the files it names. A sheet that names several
    /// still describes one album, but each file holds only its own share of it.
    pub fn tracks_in(&self, audio: &str) -> (out: Vec<&CueTrack>)
        ensures
            borrowed_view(out@) == tracks_of(self@.tracks, audio@),
    {
        let mut out: Vec<&CueTrack> = Vec::new();
        let name: String = match path::file_name_of(audio) {
            Some(name) => name,
            None => {
                assert(borrowed_view(out@) =~= Seq::empty());
                return out;
            },
        };
        let ghost whole = tracks_named(self@.tracks, name@, 0);
        let mut i: usize = 0;
        assert(borrowed_view(out@) + whole =~= whole);
        while i < self.tracks.len()
            invariant
                i <= self.tracks@.len(),
                whole == borrowed_view(out@) + tracks_named(self@.tracks, name@, i as int),
            decreases self.tracks@.len() - i,
        {
            let track: &CueTrack = &self.tracks[i];
            let ghost before = out@;
            assert(self@.tracks[i as int] == track@);
            if let Some(own) = path::file_name_of(track.file.as_str()) {
                if own == name {
                    out.push(track);
                    assert(borrowed_view(out@) =~= borrowed_view(before).push(track@));
                }
            }
            i += 1;
            assert(whole =~= borrowed_view(out@) + tracks_named(self@.tracks, name@, i as int));
        }
        assert(borrowed_view(out@) =~= whole);
        out
    }
}

/// A path whose extension is `cue`.
pub open spec fn is_cue_path(path: Seq<char>) -> bool {
    path::extension(path) matches Some(found) && text::same_letters(found, "cue"@)
}

pub fn is_cue(path: &str) -> (yes: bool)
    ensures
        yes == is_cue_path(path@),
{
    path::has_extension(path, "cue")
}

/// A file of a folder that may be a cue sheet.
pub struct SheetFile {
    pub path: String,
    pub bytes: Vec<u8>,
    /// Those of the places its `FILE` lines lead to that hold a file.
    pub present: Vec<String>,
}

/// A list of sheets as characters.
pub open spec fn sheets_view(sheets: Seq<Sheet>) -> Seq<Listing> {
    sheets.map_values(|sheet: Sheet| sheet@)
}

/// The cue sheets among the files from `index` on that parse.
pub open spec fn readable(files: Seq<SheetFile>, index: int) -> Seq<Listing>
    decreases files.len() - index,
{
    if index >= files.len() {
        Seq::empty()
    } else {
        let file = files[index];
        let rest = readable(files, index + 1);
        if is_cue_path(file.path@) {
            match sheet_listing(file.path@, file.bytes@, texts_view(file.present@)) {
                Ok(listing) => seq![listing] + rest,
                Err(_) => rest,
            }
        } else {
            rest
        }
    }
}

/// Sheets in the order of their paths.
pub open spec fn in_path_order(sheets: Seq<Listing>) -> bool {
    forall|i: int, j: int|
        0 <= i < j < sheets.len() ==> !text::before(
            (#[trigger] sheets[j]).path,
            (#[trigger] sheets[i]).path,
            0,
        )
}

/// Put a sheet where it belongs in a list in path order.
fn insert_in_order(sheets: &mut Vec<Sheet>, sheet: Sheet)
    requires
        in_path_order(sheets_view(old(sheets)@)),
    ensures
        in_path_order(sheets_view(final(sheets)@)),
        sheets_view(final(sheets)@).to_multiset() == sheets_view(
            old(sheets)@,
        ).to_multiset().insert(sheet@),
{
    let ghost before = sheets_view(sheets@);
    let ghost added = sheet@;
    let mut at: usize = 0;
    while at < sheets.len() && !text::comes_before(sheet.path.as_str(), sheets[at].path.as_str())
        invariant
            at <= sheets@.len(),
            before == sheets_view(sheets@),
            added == sheet@,
            forall|k: int| 0 <= k < at ==> !text::before(added.path, #[trigger] before[k].path, 0),
        decreases sheets@.len() - at,
    {
        assert(before[at as int] == sheets@[at as int]@);
        at += 1;
    }
    let ghost held = sheets@;
    proof {
        if at < sheets@.len() {
            assert(before[at as int] == sheets@[at as int]@);
            assert forall|k: int| at <= k < before.len() implies !text::before(
                #[trigger] before[k].path,
                added.path,
                0,
            ) by {
                let first = before[at as int].path;
                let later = before[k].path;
                text::lemma_order(first, later, 0);
                if k > at {
                    assert(!text::before(before[k].path, before[at as int].path, 0));
                    if first != later {
                        text::lemma_order_chain(added.path, first, later, 0);
                    }
                }
                text::lemma_order(added.path, later, 0);
            }
        }
    }
    sheets.insert(at, sheet);
    proof {
        let after = sheets_view(sheets@);
        assert(after =~= before.insert(at as int, added));
        before.to_multiset_ensures();
        assert(after.to_multiset() =~= before.to_multiset().insert(added)) by {
            vstd::seq_lib::lemma_multiset_commutative(
                before.subrange(0, at as int),
                seq![added] + before.subrange(at as int, before.len() as int),
            );
            lemma_insert_multiset(before, at as int, added);
        }
        assert forall|i: int, j: int| 0 <= i < j < after.len() implies !text::before(
            (#[trigger] after[j]).path,
            (#[trigger] after[i]).path,
            0,
        ) by {
            let old_i = if i < at {
                i
            } else {
                i - 1
            };
            let old_j = if j < at {
                j
            } else {
                j - 1
            };
            if i != at && j != at {
                assert(after[i] == before[old_i] && after[j] == before[old_j]);
            } else if i == at {
                assert(after[j] == before[j - 1]);
            } else {
                assert(after[i] == before[i]);
            }
        }
    }
}

proof fn lemma_insert_multiset(sheets: Seq<Listing>, at: int, sheet: Listing)
    requires
        0 <= at <= sheets.len(),
    ensures
        sheets.insert(at, sheet).to_multiset() == sheets.to_multiset().insert(sheet),
{
    let head = sheets.subrange(0, at);
    let tail = sheets.subrange(at, sheets.len() as int);
    assert(sheets =~= head + tail);
    assert(sheets.insert(at, sheet) =~= (head + seq![sheet]) + tail);
    vstd::seq_lib::lemma_multiset_commutative(head + seq![sheet], tail);
    vstd::seq_lib::lemma_multiset_commutative(head, seq![sheet]);
    vstd::seq_lib::lemma_multiset_commutative(head, tail);
    Seq::<Listing>::empty().to_multiset_ensures();
    assert(seq![sheet] =~= Seq::empty().push(sheet));
    assert(seq![sheet].to_multiset() =~= vstd::multiset::Multiset::empty().insert(sheet));
    assert(sheets.insert(at, sheet).to_multiset() =~= sheets.to_multiset().insert(sheet));
}

/// Every cue sheet in a folder that parses, in the order of their paths. One that does not is
/// not worth refusing to list the folder over, so it drops out silently and its audio file
/// lists as one recording.
pub fn sheets_in(files: &Vec<SheetFile>) -> (sheets: Vec<Sheet>)
    ensures
        in_path_order(sheets_view(sheets@)),
        sheets_view(sheets@).to_multiset() == readable(files@, 0).to_multiset(),
{
    let mut sheets: Vec<Sheet> = Vec::new();
    let ghost whole = readable(files@, 0).to_multiset();
    let mut i: usize = 0;
    assert(sheets_view(sheets@) =~= Seq::empty());
    proof {
        Seq::<Listing>::empty().to_multiset_ensures();
        assert(whole =~= Seq::<Listing>::empty().to_multiset().add(whole));
    }
    while i < files.len()
        invariant
            i <= files@.len(),
            in_path_order(sheets_view(sheets@)),
            whole == sheets_view(sheets@).to_multiset().add(readable(files@, i as int).to_multiset()),
        decreases files@.len() - i,
    {
        let file: &SheetFile = &files[i];
        let ghost before = sheets_view(sheets@).to_multiset();
        let ghost rest = readable(files@, i + 1);
        if is_cue(file.path.as_str()) {
            match Sheet::read(file.path.as_str(), file.bytes.as_slice(), &file.present) {
                Ok(sheet) => {
                    let ghost listing = sheet@;
                    insert_in_order(&mut sheets, sheet);
                    proof {
                        assert(seq![listing] + rest =~= rest.insert(0, listing));
                        lemma_insert_multiset(rest, 0, listing);
                        assert(before.add(rest.to_multiset().insert(listing)) =~= before.insert(
                            listing,
                        ).add(rest.to_multiset()));
                    }
                },
                Err(_) => {},
            }
        }
        i += 1;
    }
    proof {
        assert(readable(files@, i as int) =~= Seq::empty());
        Seq::<Listing>::empty().to_multiset_ensures();
        assert(whole =~= sheets_view(sheets@).to_multiset());
    }
    sheets
}

/// The first sheet from `index` on that names `audio`.
pub open spec fn covering(sheets: Seq<Listing>, audio: Seq<char>, index: int) -> Option<Listing>
    decreases sheets.len() - index,
{
    if index >= sheets.len() {
        None
    } else if tracks_of(sheets[index].tracks, audio).len() > 0 {
        Some(sheets[index])
    } else {
        covering(sheets, audio, index + 1)
    }
}

/// The cue sheet in an audio file's own folder that names it, if one does. `sheets` are the
/// sheets of that folder.
pub fn sheet_for<'a>(audio: &str, sheets: &'a Vec<Sheet>) -> (out: Option<&'a Sheet>)
    ensures
        match out {
            Some(sheet) => covering(sheets_view(sheets@), audio@, 0) == Some(sheet@),
            None => covering(sheets_view(sheets@), audio@, 0) is None,
        },
{
    let ghost seen = sheets_view(sheets@);
    let mut i: usize = 0;
    while i < sheets.len()
        invariant
            i <= sheets@.len(),
            seen == sheets_view(sheets@),
            covering(seen, audio@, 0) == covering(seen, audio@, i as int),
        decreases sheets@.len() - i,
    {
        assert(seen[i as int] == sheets@[i as int]@);
        if sheets[i].covers(audio) {
            return Some(&sheets[i]);
        }
        i += 1;
    }
    None
}

/// A backslash separates as a slash does, wherever it stands in a name.
pub proof fn a_backslash_separates(first: Seq<char>, second: Seq<char>)
    ensures
        slashed(first.push('\\') + second) == slashed(first).push('/') + slashed(second),
        !first.contains('\\') ==> slashed(first) == first,
{
    assert(slashed(first.push('\\') + second) =~= slashed(first).push('/') + slashed(second));
    if !first.contains('\\') {
        assert forall|i: int| 0 <= i < first.len() implies slashed(first)[i] == first[i] by {
            assert(first.contains(first[i]));
        }
        assert(slashed(first) =~= first);
    }
}

/// A sheet's file is looked for beside the sheet: under the name the sheet gives it, and where
/// there is none such, under the same name as a DSF, a DSDIFF or a FLAC file, in that order.
/// Where there is none of these either, it stays the name the sheet gives.
pub proof fn a_file_is_looked_for_beside_its_sheet(
    dir: Seq<char>,
    front: Seq<char>,
    ending: Seq<char>,
    present: Seq<Seq<char>>,
)
    requires
        path::is_bare(dir) || dir == seq!['/'] || dir.len() == 0,
        front.len() > 0,
        !front.contains('/'),
        !ending.contains('/'),
        !ending.contains('.'),
        path::can_be_named(front.push('.') + ending),
        !(front.push('.') + ending).contains('\\'),
    ensures
        ({
            let name = front.push('.') + ending;
            let given = path::joined(dir, name);
            let dsf = path::joined(dir, front.push('.') + seq!['d', 's', 'f']);
            let dff = path::joined(dir, front.push('.') + seq!['d', 'f', 'f']);
            let flac = path::joined(dir, front.push('.') + seq!['f', 'l', 'a', 'c']);
            let found = resolved(dir, name, present);
            &&& present.contains(given) ==> found == given
            &&& !present.contains(given) && present.contains(dsf) ==> found == dsf
            &&& !present.contains(given) && !present.contains(dsf) && present.contains(dff)
                ==> found == dff
            &&& !present.contains(given) && !present.contains(dsf) && !present.contains(dff)
                && present.contains(flac) ==> found == flac
            &&& !present.contains(given) && !present.contains(dsf) && !present.contains(dff)
                && !present.contains(flac) ==> found == given
        }),
{
    let name = front.push('.') + ending;
    a_backslash_separates(name, Seq::empty());
    reveal_strlit("dsf");
    reveal_strlit("dff");
    reveal_strlit("flac");
    assert("dsf"@ =~= seq!['d', 's', 'f']);
    assert("dff"@ =~= seq!['d', 'f', 'f']);
    assert("flac"@ =~= seq!['f', 'l', 'a', 'c']);
    path::a_name_is_its_stem_and_its_extension(dir, front, ending, "dsf"@);
    path::a_name_is_its_stem_and_its_extension(dir, front, ending, "dff"@);
    path::a_name_is_its_stem_and_its_extension(dir, front, ending, "flac"@);
}

/// A number finds the first track that has it, and nothing where no track has.
pub proof fn a_number_finds_its_track(tracks: Seq<Track>, number: u32, index: int)
    requires
        0 <= index <= tracks.len(),
    ensures
        match numbered(tracks, number, index) {
            Some(track) => exists|i: int|
                {
                    &&& index <= i < tracks.len()
                    &&& #[trigger] tracks[i] == track
                    &&& track.number == number
                    &&& forall|k: int| index <= k < i ==> (#[trigger] tracks[k]).number != number
                },
            None => forall|i: int|
                index <= i < tracks.len() ==> (#[trigger] tracks[i]).number != number,
        },
    decreases tracks.len() - index,
{
    if index < tracks.len() && tracks[index].number != number {
        a_number_finds_its_track(tracks, number, index + 1);
    }
}

/// The tracks of a file are all those that lie in a file of its name, wherever that file is, and
/// no others.
pub proof fn the_tracks_of_a_file_go_by_its_name(
    tracks: Seq<Track>,
    name: Seq<char>,
    index: int,
    track: Track,
)
    requires
        0 <= index <= tracks.len(),
    ensures
        tracks_named(tracks, name, index).contains(track) <==> exists|i: int|
            index <= i < tracks.len() && #[trigger] tracks[i] == track && path::file_name(
                track.file,
            ) == Some(name),
    decreases tracks.len() - index,
{
    if index < tracks.len() {
        the_tracks_of_a_file_go_by_its_name(tracks, name, index + 1, track);
        let rest = tracks_named(tracks, name, index + 1);
        let all = tracks_named(tracks, name, index);
        if path::file_name(tracks[index].file) == Some(name) {
            assert(all == seq![tracks[index]] + rest);
            if all.contains(track) {
                let at = all.index_of(track);
                if at > 0 {
                    assert(rest[at - 1] == track);
                    assert(rest.contains(track));
                } else {
                    assert(tracks[index] == track);
                }
            }
            if rest.contains(track) {
                assert(all[1 + rest.index_of(track)] == track);
            }
            assert(all[0] == tracks[index]);
        }
    }
}

/// The sheet that covers a file is the first that has a track in it.
pub proof fn the_first_sheet_that_names_a_file_covers_it(
    sheets: Seq<Listing>,
    audio: Seq<char>,
    index: int,
)
    requires
        0 <= index <= sheets.len(),
    ensures
        match covering(sheets, audio, index) {
            Some(sheet) => exists|i: int|
                {
                    &&& index <= i < sheets.len()
                    &&& #[trigger] sheets[i] == sheet
                    &&& tracks_of(sheet.tracks, audio).len() > 0
                    &&& forall|k: int|
                        index <= k < i ==> tracks_of((#[trigger] sheets[k]).tracks, audio).len()
                            == 0
                },
            None => forall|i: int|
                index <= i < sheets.len() ==> tracks_of((#[trigger] sheets[i]).tracks, audio).len()
                    == 0,
        },
    decreases sheets.len() - index,
{
    if index < sheets.len() && tracks_of(sheets[index].tracks, audio).len() == 0 {
        the_first_sheet_that_names_a_file_covers_it(sheets, audio, index + 1);
    }
}

/// A sheet in UTF-8 reads as it was written, whether a byte order mark stands ahead of it or not.
pub proof fn a_sheet_in_utf8_reads_as_it_was_written(letters: Seq<char>)
    ensures
        sheet_text(seq![0xEFu8, 0xBB, 0xBF] + utf8::encode_utf8(letters)) == letters,
        !(utf8::encode_utf8(letters).len() >= 3 && bytes::mark3(
            utf8::encode_utf8(letters),
            0,
            0xEF,
            0xBB,
            0xBF,
        )) ==> sheet_text(utf8::encode_utf8(letters)) == letters,
{
    let body = utf8::encode_utf8(letters);
    utf8::encode_utf8_valid_utf8(letters);
    utf8::encode_utf8_decode_utf8(letters);
    let raw = seq![0xEFu8, 0xBB, 0xBF] + body;
    assert(raw[0] == 0xEF && raw[1] == 0xBB && raw[2] == 0xBF);
    assert(raw.skip(3) =~= body);
}

/// A sheet that is not UTF-8 reads letter for byte.
pub proof fn any_other_sheet_reads_letter_for_byte(raw: Seq<u8>, index: int)
    requires
        0 <= index < raw.len(),
        raw[0] < 0x80,
        !utf8::valid_utf8(raw),
    ensures
        sheet_text(raw).len() == raw.len(),
        sheet_text(raw)[index] as int == raw[index],
{
}

/// A track that is not audio is passed over, and so is what is said of it: no track is added for
/// it, and neither its name nor its start goes to the track before it. The next audio track is
/// read as if it had not been there.
pub proof fn a_data_track_is_passed_over(
    reading: Reading,
    number: Seq<char>,
    kind: Seq<char>,
    arguments: Seq<Seq<char>>,
    title: bool,
    next: Seq<Seq<char>>,
)
    requires
        !text::same_letters(kind, "AUDIO"@),
        next.len() >= 2,
        text::same_letters(next[1], "AUDIO"@),
    ensures
        ({
            &&& reading.track(seq![number, kind]) matches Ok(data)
            &&& data.pending == reading.pending
            &&& data.album == reading.album
            &&& data.file == reading.file
            &&& data.named(arguments, title) == data
            &&& data.index(arguments) == Ok::<Reading, CueFault>(data)
            &&& data.track(next) == reading.track(next)
        }),
{
}

/// Only the starts of a track and of the gap before it count: any other index changes nothing. A
/// track starts at its own start, and at that of the gap where it has no other.
pub proof fn a_track_starts_at_its_first_index(
    reading: Reading,
    number: Seq<char>,
    time: Seq<char>,
    value: u64,
)
    requires
        reading.pending.len() > 0,
        !reading.data_track,
        time_of(time) == Some(value),
    ensures
        ({
            let last = reading.pending.last();
            let which = text::parsed(number, u32::MAX as int);
            &&& reading.index(seq![number, time]) matches Ok(after)
            &&& after.pending.len() == reading.pending.len()
            &&& which == Some(1nat) ==> after.pending.last().start() == Some(CueTime(value))
            &&& which == Some(0nat) && last.index1 is None ==> after.pending.last().start() == Some(
                CueTime(value),
            )
            &&& which == Some(0nat) && last.index1 is Some ==> after.pending.last().start()
                == last.start()
            &&& which != Some(0nat) && which != Some(1nat) ==> after == reading
            &&& forall|i: int|
                0 <= i < reading.pending.len() - 1 ==> #[trigger] after.pending[i]
                    == reading.pending[i]
        }),
{
}

} // verus!
