//! From a path and the bytes of its file to the recordings it holds.

use crate::bytes;
use crate::path;
use crate::reader;
use crate::reader::cue;
use crate::reader::cue::{CueError, CueFault, CueTrack, Sheet};
use crate::reader::dff;
use crate::reader::dff::{DffError, DffReader};
use crate::reader::dsf;
use crate::reader::dsf::{DsfError, DsfReader};
use crate::reader::flac;
use crate::reader::flac::{FlacError, FlacReader};
use crate::reader::sacd;
use crate::reader::sacd::toc;
use crate::reader::sacd::toc::TocError;
use crate::reader::sacd::{Disc, DiscError};
use crate::reader::source;
use crate::reader::source::{Container, DsdTrack, PcmTrack, Source};
use crate::reader::tags::TrackTags;
use crate::reader::{DsdRecording, DsdSource, PcmRecording, PcmSource, ReadError, Stretch};
use crate::text;
use vstd::prelude::*;

verus! {

/// One recording to play: a file, or one track of something that describes a whole disc --
/// a SACD image, or a cue sheet over a file holding a whole side.
#[derive(Debug, PartialEq, Eq)]
pub struct TrackRef {
    /// The file the track is named in: the image itself, or the cue sheet.
    pub path: String,
    /// Which track of that disc. `None` for a file that is one recording on its own.
    pub number: Option<u32>,
}

/// The same as characters.
#[verifier::ext_equal]
pub struct Named {
    pub path: Seq<char>,
    pub number: Option<u32>,
}

impl View for TrackRef {
    type V = Named;

    open spec fn view(&self) -> Named {
        Named { path: self.path@, number: self.number }
    }
}

/// A name, and the track of it that is meant, if one is.
pub open spec fn with_track(name: Seq<char>, number: Option<u32>) -> Seq<char> {
    match number {
        Some(number) => name + " track "@ + text::decimal(number as nat),
        None => name,
    }
}

impl Named {
    /// What to call this when a file name is all there is to go on.
    pub open spec fn label(self) -> Seq<char> {
        with_track(
            match path::file_name(self.path) {
                Some(name) => name,
                None => Seq::empty(),
            },
            self.number,
        )
    }
}

fn name_with_track(name: String, number: Option<u32>) -> (out: String)
    ensures
        out@ == with_track(name@, number),
{
    match number {
        Some(number) => {
            let mut out: String = name;
            out.append(" track ");
            out.append(text::decimal_of(number as u64).as_str());
            out
        },
        None => name,
    }
}

impl TrackRef {
    pub fn file(path: String) -> (track: Self)
        ensures
            track@ == (Named { path: path@, number: None }),
    {
        TrackRef { path, number: None }
    }

    pub fn of_disc(path: String, number: u32) -> (track: Self)
        ensures
            track@ == (Named { path: path@, number: Some(number) }),
    {
        TrackRef { path, number: Some(number) }
    }

    /// What to call this when a file name is all there is to go on.
    pub fn label(&self) -> (out: String)
        ensures
            out@ == self@.label(),
    {
        let name: String = match path::file_name_of(self.path.as_str()) {
            Some(name) => name,
            None => String::new(),
        };
        name_with_track(name, self.number)
    }

    /// The whole path, and the track of it that is meant.
    pub fn to_string(&self) -> (out: String)
        ensures
            out@ == with_track(self@.path, self@.number),
    {
        name_with_track(text::owned(self.path.as_str()), self.number)
    }

    /// The same track once more.
    pub fn copy(&self) -> (out: Self)
        ensures
            out@ == self@,
    {
        TrackRef { path: text::owned(self.path.as_str()), number: self.number }
    }
}

/// Why a path could not be opened, and what it was opened for.
#[derive(Debug, PartialEq, Eq)]
pub enum OpenError {
    Empty { path: String },
    Unrecognised { path: String, magic: [u8; 4] },
    WholeDisc { path: String },
    Dsf { path: String, error: DsfError },
    Dff { path: String, error: DffError },
    Flac { path: String, error: FlacError },
    Toc { path: String, error: TocError },
    Disc { error: DiscError },
    Sheet { path: String, error: CueError },
    NoCueTrack { sheet: String, numbering: String, number: u32 },
    Audio { sheet: String, file: String, error: Box<OpenError> },
    Read { error: ReadError },
}

/// The same as characters.
pub enum OpenFault {
    Empty { path: Seq<char> },
    Unrecognised { path: Seq<char>, magic: Seq<u8> },
    WholeDisc { path: Seq<char> },
    Dsf { path: Seq<char>, error: DsfError },
    Dff { path: Seq<char>, error: DffError },
    Flac { path: Seq<char>, error: FlacError },
    Toc { path: Seq<char>, error: TocError },
    NoTrack { path: Seq<char>, tracks: int, number: u32 },
    Sheet { path: Seq<char>, error: CueFault },
    NoCueTrack { sheet: Seq<char>, numbering: Seq<char>, number: u32 },
    Audio { sheet: Seq<char>, file: Seq<char>, error: Box<OpenFault> },
    Read { error: ReadError },
}

impl OpenError {
    /// The same as characters.
    pub open spec fn fault(self) -> OpenFault
        decreases self,
    {
        match self {
            OpenError::Empty { path } => OpenFault::Empty { path: path@ },
            OpenError::Unrecognised { path, magic } => OpenFault::Unrecognised {
                path: path@,
                magic: magic@,
            },
            OpenError::WholeDisc { path } => OpenFault::WholeDisc { path: path@ },
            OpenError::Dsf { path, error } => OpenFault::Dsf { path: path@, error },
            OpenError::Dff { path, error } => OpenFault::Dff { path: path@, error },
            OpenError::Flac { path, error } => OpenFault::Flac { path: path@, error },
            OpenError::Toc { path, error } => OpenFault::Toc { path: path@, error },
            OpenError::Disc { error } => match error {
                DiscError::NoTrack { path, tracks, number } => OpenFault::NoTrack {
                    path: path@,
                    tracks: tracks as int,
                    number,
                },
                DiscError::Read { error } => OpenFault::Read { error },
            },
            OpenError::Sheet { path, error } => OpenFault::Sheet { path: path@, error: error@ },
            OpenError::NoCueTrack { sheet, numbering, number } => OpenFault::NoCueTrack {
                sheet: sheet@,
                numbering: numbering@,
                number,
            },
            OpenError::Audio { sheet, file, error } => OpenFault::Audio {
                sheet: sheet@,
                file: file@,
                error: Box::new((*error).fault()),
            },
            OpenError::Read { error } => OpenFault::Read { error },
        }
    }
}

/// Half a byte as a hexadecimal digit.
pub open spec fn hex_digit(value: int) -> char {
    if value < 10 {
        text::digit(value)
    } else {
        ('A' as int + value - 10) as char
    }
}

/// Bytes in hexadecimal, with commas between them.
pub open spec fn hex_list(bytes: Seq<u8>) -> Seq<char>
    decreases bytes.len(),
{
    if bytes.len() == 0 {
        Seq::empty()
    } else {
        let last = seq![hex_digit(bytes.last() as int / 16), hex_digit(bytes.last() as int % 16)];
        if bytes.len() == 1 {
            last
        } else {
            hex_list(bytes.drop_last()) + ", "@ + last
        }
    }
}

fn hex_digit_of(value: u8) -> (digit: char)
    requires
        value < 16,
    ensures
        digit == hex_digit(value as int),
{
    if value < 10 {
        (48 + value) as char
    } else {
        (55 + value) as char
    }
}

fn hex_list_of(bytes: &[u8]) -> (out: String)
    ensures
        out@ == hex_list(bytes@),
{
    let mut out: String = String::new();
    let mut i: usize = 0;
    assert(bytes@.subrange(0, 0) =~= Seq::empty());
    while i < bytes.len()
        invariant
            i <= bytes@.len(),
            out@ == hex_list(bytes@.subrange(0, i as int)),
        decreases bytes@.len() - i,
    {
        let ghost before = out@;
        if i > 0 {
            out.append(", ");
        }
        out.push(hex_digit_of(bytes[i] / 16));
        out.push(hex_digit_of(bytes[i] % 16));
        i += 1;
        proof {
            let now = bytes@.subrange(0, i as int);
            assert(now.drop_last() =~= bytes@.subrange(0, i - 1));
            let last = seq![hex_digit(now.last() as int / 16), hex_digit(now.last() as int % 16)];
            if i == 1 {
                assert(out@ =~= last);
            } else {
                assert(out@ =~= before + ", "@ + last);
            }
        }
    }
    assert(bytes@.subrange(0, bytes@.len() as int) =~= bytes@);
    out
}

impl OpenFault {
    /// What went wrong, in a line.
    pub open spec fn line(self) -> Seq<char>
        decreases self,
    {
        match self {
            OpenFault::Empty { path } => path + " is empty"@,
            OpenFault::Unrecognised { path, magic } => path + ": unrecognised container (magic ["@
                + hex_list(magic) + "]); expected DSF, DSDIFF, FLAC, or a SACD image"@,
            OpenFault::WholeDisc { path } => path
                + ": a SACD image holds a whole disc, so it opens as the tracks inside it"@,
            OpenFault::Dsf { path, error } => "cannot parse "@ + path + ": "@ + error.line(),
            OpenFault::Dff { path, error } => "cannot parse "@ + path + ": "@ + error.line(),
            OpenFault::Flac { path, error } => "cannot parse "@ + path + ": "@ + error.line(),
            OpenFault::Toc { path, error } => "cannot read "@ + path + ": "@ + error.line(),
            OpenFault::NoTrack { path, tracks, number } => path + " holds tracks 1 to "@
                + text::decimal(tracks as nat) + ", so there is no track "@ + text::decimal(
                number as nat,
            ),
            OpenFault::Sheet { path, error } => error.line(path),
            OpenFault::NoCueTrack { sheet, numbering, number } => sheet + " lists tracks "@
                + numbering + ", so there is no track "@ + text::decimal(number as nat),
            OpenFault::Audio { sheet, file, error } => sheet + " names "@ + file
                + " as its audio: "@ + (*error).line(),
            OpenFault::Read { error } => error.line(),
        }
    }
}

fn parse_fault(path: &str, line: String) -> (out: String)
    ensures
        out@ == "cannot parse "@ + path@ + ": "@ + line@,
{
    let mut out: String = text::owned("cannot parse ");
    out.append(path);
    out.append(": ");
    out.append(line.as_str());
    out
}

impl OpenError {
    /// What went wrong, in a line.
    pub fn message(&self) -> (line: String)
        ensures
            line@ == self.fault().line(),
        decreases self,
    {
        match self {
            OpenError::Empty { path } => {
                let mut line: String = text::owned(path.as_str());
                line.append(" is empty");
                line
            },
            OpenError::Unrecognised { path, magic } => {
                let mut line: String = text::owned(path.as_str());
                line.append(": unrecognised container (magic [");
                line.append(hex_list_of(magic.as_slice()).as_str());
                line.append("]); expected DSF, DSDIFF, FLAC, or a SACD image");
                line
            },
            OpenError::WholeDisc { path } => {
                let mut line: String = text::owned(path.as_str());
                line.append(
                    ": a SACD image holds a whole disc, so it opens as the tracks inside it",
                );
                line
            },
            OpenError::Dsf { path, error } => parse_fault(path.as_str(), error.message()),
            OpenError::Dff { path, error } => parse_fault(path.as_str(), error.message()),
            OpenError::Flac { path, error } => parse_fault(path.as_str(), error.message()),
            OpenError::Toc { path, error } => {
                let mut line: String = text::owned("cannot read ");
                line.append(path.as_str());
                line.append(": ");
                line.append(error.message().as_str());
                line
            },
            OpenError::Disc { error } => match error {
                DiscError::NoTrack { path, tracks, number } => {
                    let mut line: String = text::owned(path.as_str());
                    line.append(" holds tracks 1 to ");
                    line.append(text::decimal_of(*tracks as u64).as_str());
                    line.append(", so there is no track ");
                    line.append(text::decimal_of(*number as u64).as_str());
                    line
                },
                DiscError::Read { error } => error.message(),
            },
            OpenError::Sheet { path, error } => error.message(path.as_str()),
            OpenError::NoCueTrack { sheet, numbering, number } => {
                let mut line: String = text::owned(sheet.as_str());
                line.append(" lists tracks ");
                line.append(numbering.as_str());
                line.append(", so there is no track ");
                line.append(text::decimal_of(*number as u64).as_str());
                line
            },
            OpenError::Audio { sheet, file, error } => {
                let mut line: String = text::owned(sheet.as_str());
                line.append(" names ");
                line.append(file.as_str());
                line.append(" as its audio: ");
                let inner: String = (*error).message();
                line.append(inner.as_str());
                line
            },
            OpenError::Read { error } => error.message(),
        }
    }
}

/// A recording that a file holds.
pub enum Held {
    Dsd(DsdRecording),
    Pcm(PcmRecording),
}

/// The recording that a file holds on its own, told by the container's magic rather than the
/// extension.
pub open spec fn held(path: Seq<char>, file: Seq<u8>) -> Result<Held, OpenFault> {
    if file.len() < 4 {
        Err(OpenFault::Empty { path })
    } else if bytes::mark4(file, 0, 0x44, 0x53, 0x44, 0x20) {
        match dsf::layout(file) {
            Ok(layout) => Ok(Held::Dsd(layout.recording(file))),
            Err(error) => Err(OpenFault::Dsf { path, error }),
        }
    } else if bytes::mark4(file, 0, 0x46, 0x52, 0x4D, 0x38) {
        match dff::layout(file) {
            Ok(layout) => Ok(Held::Dsd(layout.recording(file))),
            Err(error) => Err(OpenFault::Dff { path, error }),
        }
    } else if bytes::mark4(file, 0, 0x66, 0x4C, 0x61, 0x43) {
        if file.len() > flac::MAX_FILE_BYTES {
            Err(OpenFault::Flac { path, error: FlacError::TooLarge })
        } else {
            match flac::preamble(file) {
                Ok(found) => Ok(Held::Pcm(flac::recording_of(file, found))),
                Err(error) => Err(OpenFault::Flac { path, error }),
            }
        }
    } else if sacd::is_image_path(path) {
        Err(OpenFault::WholeDisc { path })
    } else {
        Err(OpenFault::Unrecognised { path, magic: file.subrange(0, 4) })
    }
}

/// A file opened on its own, before it is known whether a part of it is wanted.
enum Opened {
    Dsd(Container),
    Pcm(FlacReader),
}

impl Opened {
    spec fn holds(&self, held: Held, file: Seq<u8>) -> bool {
        match (self, held) {
            (Opened::Dsd(source), Held::Dsd(recording)) => {
                &&& source is Dsf || source is Dff
                &&& reader::ready(
                    source.wf(),
                    source.recording(),
                    source.position(),
                    source.upcoming(),
                )
                &&& source.recording() == recording
                &&& source.position() == 0
                &&& recording.exact
                &&& recording.ending is None
                &&& recording.later.len() == 0
            },
            (Opened::Pcm(source), Held::Pcm(recording)) => {
                &&& reader::pcm_ready(
                    source.wf(),
                    source.recording(),
                    source.position(),
                    source.upcoming(),
                )
                &&& source.recording() == recording
                &&& source.upcoming() == recording.audio
                &&& source.ending() == recording.ending
                &&& source.later() == recording.later
                &&& flac::preamble(file) matches Ok(found)
                &&& source.bytes() == file
                &&& source.preamble() == found
                &&& source.standing() == flac::at_start(file, found)
            },
            _ => false,
        }
    }
}

fn open_whole(path: &str, file: Vec<u8>) -> (out: Result<Opened, OpenError>)
    ensures
        match held(path@, file@) {
            Ok(recording) => out matches Ok(opened) && opened.holds(recording, file@),
            Err(fault) => out matches Err(error) && error.fault() == fault,
        },
{
    if file.len() < 4 {
        return Err(OpenError::Empty { path: text::owned(path) });
    }
    let magic: [u8; 4] = [file[0], file[1], file[2], file[3]];
    assert(magic@ =~= file@.subrange(0, 4));
    let head: &[u8] = file.as_slice();
    if bytes::is_mark4(head, 0, 0x44, 0x53, 0x44, 0x20) {
        match DsfReader::new(file) {
            Ok(source) => Ok(Opened::Dsd(Container::Dsf(source))),
            Err(error) => Err(OpenError::Dsf { path: text::owned(path), error }),
        }
    } else if bytes::is_mark4(head, 0, 0x46, 0x52, 0x4D, 0x38) {
        match DffReader::new(file) {
            Ok(source) => Ok(Opened::Dsd(Container::Dff(source))),
            Err(error) => Err(OpenError::Dff { path: text::owned(path), error }),
        }
    } else if bytes::is_mark4(head, 0, 0x66, 0x4C, 0x61, 0x43) {
        match FlacReader::open(file) {
            Ok(source) => Ok(Opened::Pcm(source)),
            Err(error) => Err(OpenError::Flac { path: text::owned(path), error }),
        }
    } else if sacd::is_image(path) {
        // An image is a whole disc rather than one recording, so a track has to be named.
        // `tracks_of` is what names them, and both playing and browsing go through it.
        Err(OpenError::WholeDisc { path: text::owned(path) })
    } else {
        Err(OpenError::Unrecognised { path: text::owned(path), magic })
    }
}

/// What is to come of a recording that has just been opened, stretch by stretch.
pub enum Opening {
    Dsd(Seq<Stretch<Seq<Seq<u8>>>>),
    Pcm(Seq<Stretch<Seq<i32>>>),
}

/// All of a recording is to come.
pub open spec fn from_start(held: Held) -> Opening {
    match held {
        Held::Dsd(recording) => Opening::Dsd(
            reader::course(recording.audio, recording.ending, recording.later),
        ),
        Held::Pcm(recording) => Opening::Pcm(
            reader::course(recording.audio, recording.ending, recording.later),
        ),
    }
}

/// A source plays what a recording holds, from its start where it is numbered truly, and what
/// is to come of it is what it opens with.
pub open spec fn plays(source: &Source, held: Held, opening: Opening) -> bool {
    &&& source.wf()
    &&& match (source, held, opening) {
        (Source::Dsd { source, .. }, Held::Dsd(recording), Opening::Dsd(course)) => {
            &&& source.recording() == recording
            &&& recording.exact ==> source.upcoming() == recording.audio
            &&& reader::course(source.upcoming(), source.ending(), source.later()) == course
        },
        (Source::Pcm(source), Held::Pcm(recording), Opening::Pcm(course)) => {
            &&& source.recording() == recording
            &&& recording.exact ==> source.upcoming() == recording.audio
            &&& reader::course(source.upcoming(), source.ending(), source.later()) == course
        },
        _ => false,
    }
}

/// Open one track of a cue sheet: the file the sheet names, bounded to the track. `audio` is
/// what that file holds.
pub fn open_cue_track(sheet: &Sheet, number: u32, audio: Vec<u8>) -> (out: Result<
    Source,
    OpenError,
>)
    ensures
        match cue_track_held(sheet@, number, audio@) {
            Ok((part, opening)) => out matches Ok(source) && plays(&source, part, opening),
            Err(fault) => out matches Err(error) && error.fault() == fault,
        },
{
    let track: &CueTrack = match sheet.track(number) {
        Some(track) => track,
        None => {
            return Err(
                OpenError::NoCueTrack {
                    sheet: text::owned(sheet.path.as_str()),
                    numbering: sheet.numbering(),
                    number,
                },
            );
        },
    };
    let opened: Opened = match open_whole(track.file.as_str(), audio) {
        Ok(opened) => opened,
        Err(error) => {
            return Err(
                OpenError::Audio {
                    sheet: text::owned(sheet.path.as_str()),
                    file: text::owned(track.file.as_str()),
                    error: Box::new(error),
                },
            );
        },
    };
    match opened {
        Opened::Dsd(container) => match source::narrowed_dsd(container, track) {
            Ok(part) => {
                proof {
                    reader::lemma_rest_of_all(part.recording().audio);
                    let course = reader::course(part.upcoming(), part.ending(), part.later());
                    assert(course[0].fault == part.ending());
                    assert(course.skip(1) =~= part.later());
                }
                Ok(Source::of_dsd(part))
            },
            Err(error) => Err(OpenError::Read { error }),
        },
        Opened::Pcm(file) => match source::narrowed_pcm(file, track) {
            Ok(part) => {
                proof {
                    let words = part.recording().audio;
                    if part.recording().exact {
                        assert(part.position() * part.recording().format.channels == 0)
                            by (nonlinear_arith)
                            requires
                                part.position() == 0,
                        ;
                        assert(reader::clipped(words, 0, words.len() as int) =~= words);
                    }
                }
                Ok(Source::Pcm(part))
            },
            Err(error) => Err(OpenError::Read { error }),
        },
    }
}

/// The recording that a track of a sheet is, where `audio` is what the file it names holds,
/// and what it opens with: its own start, or what the blocks of a FLAC file have from where
/// reading for that start goes on.
pub open spec fn cue_track_held(sheet: cue::Listing, number: u32, audio: Seq<u8>) -> Result<
    (Held, Opening),
    OpenFault,
> {
    match cue::numbered(sheet.tracks, number, 0) {
        None => Err(
            OpenFault::NoCueTrack {
                sheet: sheet.path,
                numbering: cue::numbers_text(sheet.tracks, 0),
                number,
            },
        ),
        Some(track) => match held(track.file, audio) {
            Err(fault) => Err(
                OpenFault::Audio { sheet: sheet.path, file: track.file, error: Box::new(fault) },
            ),
            Ok(Held::Dsd(whole)) => {
                let part = Held::Dsd(source::dsd_part(whole, track));
                Ok((part, from_start(part)))
            },
            Ok(Held::Pcm(whole)) => {
                let found = flac::preamble(audio)->Ok_0;
                let start = source::pcm_start(whole, track);
                let (landed, standing) = flac::sought_from(
                    audio,
                    found,
                    flac::at_start(audio, found),
                    start,
                );
                match landed {
                    Ok(landed) => Ok(
                        (
                            Held::Pcm(source::pcm_part(whole, track)),
                            Opening::Pcm(
                                source::pcm_opening(
                                    whole,
                                    track,
                                    flac::course_from(audio, found.format, standing),
                                    landed as int,
                                ),
                            ),
                        ),
                    ),
                    Err(error) => Err(OpenFault::Read { error }),
                }
            },
        },
    }
}

/// The recording that a track of a disc image is.
pub open spec fn disc_track_held(path: Seq<char>, number: u32, image: Seq<u8>) -> Result<
    Held,
    OpenFault,
> {
    match toc::contents(image) {
        Err(error) => Err(OpenFault::Toc { path, error }),
        Ok(disc) => match sacd::track_at(disc.area.tracks, number) {
            None => Err(
                OpenFault::NoTrack { path, tracks: disc.area.tracks.len() as int, number },
            ),
            Some(i) => {
                let track = disc.area.tracks[i];
                let format = crate::dsd::DsdFormat {
                    rate: crate::dsd::DsdRate(toc::DSD64_HZ),
                    channels: disc.area.channels,
                };
                let frames = sacd::track_frames(image, format.channels as int, track);
                match sacd::cut_at(image, track.start_lsn, track.end_lsn) {
                    Some(error) if frames.len() == 0 => Err(OpenFault::Read { error }),
                    _ => Ok(
                        Held::Dsd(
                            sacd::recording_of(image, format, track, sacd::disc_tags(disc, number)),
                        ),
                    ),
                }
            },
        },
    }
}

/// The recording that `track` names and what it opens with, or why it cannot be opened.
pub open spec fn recording_held(
    track: Named,
    file: Seq<u8>,
    present: Seq<Seq<char>>,
    audio: Seq<u8>,
) -> Result<(Held, Opening), OpenFault> {
    match track.number {
        Some(number) => if cue::is_cue_path(track.path) {
            match cue::sheet_listing(track.path, file, present) {
                Ok(sheet) => cue_track_held(sheet, number, audio),
                Err(error) => Err(OpenFault::Sheet { path: track.path, error }),
            }
        } else {
            match disc_track_held(track.path, number, file) {
                Ok(recording) => Ok((recording, from_start(recording))),
                Err(fault) => Err(fault),
            }
        },
        None => match held(track.path, file) {
            Ok(recording) => Ok((recording, from_start(recording))),
            Err(fault) => Err(fault),
        },
    }
}

/// Open one track of a disc image.
fn open_disc_track(path: &str, number: u32, image: Vec<u8>) -> (out: Result<Source, OpenError>)
    ensures
        match disc_track_held(path@, number, image@) {
            Ok(recording) => out matches Ok(source) && plays(
                &source,
                recording,
                from_start(recording),
            ),
            Err(fault) => out matches Err(error) && error.fault() == fault,
        },
{
    let disc: Disc = match Disc::open(path, image.as_slice()) {
        Ok(disc) => disc,
        Err(error) => {
            return Err(OpenError::Toc { path: text::owned(path), error });
        },
    };
    match disc.reader(number, image) {
        Ok(source) => Ok(Source::of_dsd(DsdTrack::Whole(Container::Sacd(source)))),
        Err(error) => Err(OpenError::Disc { error }),
    }
}

/// Open a file that is one recording on its own.
fn open_file(path: &str, file: Vec<u8>) -> (out: Result<Source, OpenError>)
    ensures
        match held(path@, file@) {
            Ok(recording) => out matches Ok(source) && plays(
                &source,
                recording,
                from_start(recording),
            ),
            Err(fault) => out matches Err(error) && error.fault() == fault,
        },
{
    match open_whole(path, file) {
        Ok(Opened::Dsd(container)) => {
            proof {
                reader::lemma_rest_of_all(container.recording().audio);
            }
            Ok(Source::of_dsd(DsdTrack::Whole(container)))
        },
        Ok(Opened::Pcm(file)) => Ok(Source::Pcm(PcmTrack::Whole(file))),
        Err(error) => Err(error),
    }
}

/// Open a recording. `file` is what the file at its path holds. Where that is a cue sheet,
/// `present` are those of the places its `FILE` lines lead to that hold a file, and `audio` is
/// what the file of the track holds, which [`audio_of`] names.
pub fn open(track: &TrackRef, file: Vec<u8>, present: &Vec<String>, audio: Vec<u8>) -> (out: Result<
    Source,
    OpenError,
>)
    ensures
        match recording_held(track@, file@, cue::texts_view(present@), audio@) {
            Ok((recording, opening)) => out matches Ok(source) && plays(
                &source,
                recording,
                opening,
            ),
            Err(fault) => out matches Err(error) && error.fault() == fault,
        },
{
    match track.number {
        Some(number) => {
            if cue::is_cue(track.path.as_str()) {
                return match Sheet::read(track.path.as_str(), file.as_slice(), present) {
                    Ok(sheet) => open_cue_track(&sheet, number, audio),
                    Err(error) => Err(
                        OpenError::Sheet { path: text::owned(track.path.as_str()), error },
                    ),
                };
            }
            open_disc_track(track.path.as_str(), number, file)
        },
        None => open_file(track.path.as_str(), file),
    }
}

/// The file that has to be read besides a track's own path before it can be opened: the one
/// that a cue sheet names for it.
pub fn audio_of(track: &TrackRef, file: &[u8], present: &Vec<String>) -> (out: Option<String>)
    ensures
        text::option_view(out) == (match track@.number {
            Some(number) => if cue::is_cue_path(track@.path) {
                match cue::sheet_listing(track@.path, file@, cue::texts_view(present@)) {
                    Ok(sheet) => match cue::numbered(sheet.tracks, number, 0) {
                        Some(found) => Some(found.file),
                        None => None,
                    },
                    Err(_) => None,
                }
            } else {
                None
            },
            None => None,
        }),
{
    match track.number {
        Some(number) => {
            if !cue::is_cue(track.path.as_str()) {
                return None;
            }
            match Sheet::read(track.path.as_str(), file, present) {
                Ok(sheet) => match sheet.track(number) {
                    Some(found) => Some(text::owned(found.file.as_str())),
                    None => None,
                },
                Err(_) => None,
            }
        },
        None => None,
    }
}

/// A list of tracks as characters.
pub open spec fn named_view(tracks: Seq<TrackRef>) -> Seq<Named> {
    tracks.map_values(|track: TrackRef| track@)
}

/// Tracks of a sheet, named by the sheet.
pub open spec fn sheet_refs(path: Seq<char>, tracks: Seq<cue::Track>) -> Seq<Named> {
    tracks.map_values(|track: cue::Track| Named { path, number: Some(track.number) })
}

/// Name tracks of a cue sheet by the sheet rather than by the audio file, so that opening
/// one goes back through the sheet for its bounds.
pub fn cue_tracks(sheet: &Sheet, tracks: &Vec<&CueTrack>) -> (refs: Vec<TrackRef>)
    ensures
        named_view(refs@) == sheet_refs(sheet@.path, cue::borrowed_view(tracks@)),
{
    let mut refs: Vec<TrackRef> = Vec::new();
    let ghost whole = sheet_refs(sheet@.path, cue::borrowed_view(tracks@));
    let mut i: usize = 0;
    while i < tracks.len()
        invariant
            i <= tracks@.len(),
            refs@.len() == i,
            whole == sheet_refs(sheet@.path, cue::borrowed_view(tracks@)),
            forall|k: int| 0 <= k < i ==> (#[trigger] refs@[k])@ == whole[k],
        decreases tracks@.len() - i,
    {
        refs.push(TrackRef::of_disc(text::owned(sheet.path.as_str()), tracks[i].number));
        i += 1;
    }
    assert(named_view(refs@) =~= whole);
    refs
}

/// Every recording that a path holds, in playing order: one for a file, and one per track for
/// a disc image or for a file a cue sheet beside it splits.
pub open spec fn recordings(
    path: Seq<char>,
    file: Seq<u8>,
    present: Seq<Seq<char>>,
    beside: Seq<cue::Listing>,
) -> Result<Seq<Named>, OpenFault> {
    if sacd::is_image_path(path) {
        match toc::contents(file) {
            Ok(disc) => Ok(
                disc.area.tracks.map_values(
                    |track: toc::Entry| Named { path, number: Some(track.number) },
                ),
            ),
            Err(error) => Err(OpenFault::Toc { path, error }),
        }
    } else if cue::is_cue_path(path) {
        match cue::sheet_listing(path, file, present) {
            Ok(sheet) => Ok(sheet_refs(sheet.path, sheet.tracks)),
            Err(error) => Err(OpenFault::Sheet { path, error }),
        }
    } else {
        match cue::covering(beside, path, 0) {
            Some(sheet) => Ok(sheet_refs(sheet.path, cue::tracks_of(sheet.tracks, path))),
            None => Ok(seq![Named { path, number: None }]),
        }
    }
}

/// Every recording a path holds, in playing order: one for a file, and one per track for a
/// disc image or for a file a cue sheet beside it splits. `file` is what an image or a sheet
/// holds, `present` those of the places a sheet's `FILE` lines lead to that hold a file, and
/// `beside` the sheets in the path's own folder.
pub fn tracks_of(path: &str, file: &[u8], present: &Vec<String>, beside: &Vec<Sheet>) -> (out:
    Result<Vec<TrackRef>, OpenError>)
    ensures
        match recordings(path@, file@, cue::texts_view(present@), cue::sheets_view(beside@)) {
            Ok(tracks) => out matches Ok(refs) && named_view(refs@) == tracks,
            Err(fault) => out matches Err(error) && error.fault() == fault,
        },
{
    if sacd::is_image(path) {
        let disc: Disc = match Disc::open(path, file) {
            Ok(disc) => disc,
            Err(error) => {
                return Err(OpenError::Toc { path: text::owned(path), error });
            },
        };
        let tracks: &[toc::Track] = disc.tracks();
        let ghost entries = disc.toc@.area.tracks;
        let mut refs: Vec<TrackRef> = Vec::new();
        let mut i: usize = 0;
        while i < tracks.len()
            invariant
                i <= tracks@.len(),
                refs@.len() == i,
                entries == toc::tracks_view(tracks@),
                forall|k: int|
                    0 <= k < i ==> (#[trigger] refs@[k])@ == (Named {
                        path: path@,
                        number: Some(entries[k].number),
                    }),
            decreases tracks@.len() - i,
        {
            refs.push(TrackRef::of_disc(text::owned(path), tracks[i].number));
            i += 1;
        }
        assert(named_view(refs@) =~= entries.map_values(
            |track: toc::Entry| Named { path: path@, number: Some(track.number) },
        ));
        return Ok(refs);
    }
    if cue::is_cue(path) {
        let sheet: Sheet = match Sheet::read(path, file, present) {
            Ok(sheet) => sheet,
            Err(error) => {
                return Err(OpenError::Sheet { path: text::owned(path), error });
            },
        };
        let mut tracks: Vec<&CueTrack> = Vec::new();
        let mut i: usize = 0;
        while i < sheet.tracks.len()
            invariant
                i <= sheet.tracks@.len(),
                tracks@.len() == i,
                forall|k: int| 0 <= k < i ==> *(#[trigger] tracks@[k]) == sheet.tracks@[k],
            decreases sheet.tracks@.len() - i,
        {
            tracks.push(&sheet.tracks[i]);
            i += 1;
        }
        assert(cue::borrowed_view(tracks@) =~= sheet@.tracks);
        return Ok(cue_tracks(&sheet, &tracks));
    }
    match cue::sheet_for(path, beside) {
        // Only this file's share of the sheet: a sheet naming several files describes one
        // album, and every file in it would otherwise queue the whole album again.
        Some(sheet) => Ok(cue_tracks(sheet, &sheet.tracks_in(path))),
        None => {
            let mut refs: Vec<TrackRef> = Vec::new();
            refs.push(TrackRef::file(text::owned(path)));
            assert(named_view(refs@) =~= seq![Named { path: path@, number: None }]);
            Ok(refs)
        },
    }
}

/// Read only what a recording says it is, for a listing with no reason to keep the audio open.
pub fn tags_of(
    track: &TrackRef,
    file: Vec<u8>,
    present: &Vec<String>,
    audio: Vec<u8>,
) -> (out: Result<TrackTags, OpenError>)
    ensures
        match recording_held(track@, file@, cue::texts_view(present@), audio@) {
            Ok((recording, _)) => out matches Ok(tags) && tags@ == (match recording {
                Held::Dsd(held) => held.tags,
                Held::Pcm(held) => held.tags,
            }),
            Err(fault) => out matches Err(error) && error.fault() == fault,
        },
{
    match open(track, file, present, audio) {
        Ok(source) => Ok(source.tags().copy()),
        Err(error) => Err(error),
    }
}

/// A file is told by its first four bytes, whatever it is called: DSD and a space for DSF, FRM8
/// for DSDIFF and fLaC for FLAC.
pub proof fn a_file_is_told_by_its_first_bytes(
    path: Seq<char>,
    other: Seq<char>,
    file: Seq<u8>,
)
    requires
        file.len() >= 4,
        file.len() <= flac::MAX_FILE_BYTES,
    ensures
        ({
            let first = file.take(4);
            let held_here = held(path, file);
            &&& first == seq![0x44u8, 0x53, 0x44, 0x20] ==> (held_here is Ok <==> dsf::layout(
                file,
            ) is Ok) && (dsf::layout(file) matches Ok(layout) ==> held_here == Ok::<
                Held,
                OpenFault,
            >(Held::Dsd(layout.recording(file))) && held(other, file) == held_here)
            &&& first == seq![0x46u8, 0x52, 0x4D, 0x38] ==> (held_here is Ok <==> dff::layout(
                file,
            ) is Ok) && (dff::layout(file) matches Ok(layout) ==> held_here == Ok::<
                Held,
                OpenFault,
            >(Held::Dsd(layout.recording(file))) && held(other, file) == held_here)
            &&& first == seq![0x66u8, 0x4C, 0x61, 0x43] ==> (held_here is Ok <==> flac::preamble(
                file,
            ) is Ok) && (flac::preamble(file) matches Ok(found) ==> held_here == Ok::<
                Held,
                OpenFault,
            >(Held::Pcm(flac::recording_of(file, found))) && held(other, file) == held_here)
            &&& held_here is Ok ==> first == seq![0x44u8, 0x53, 0x44, 0x20] || first == seq![
                0x46u8,
                0x52,
                0x4D,
                0x38,
            ] || first == seq![0x66u8, 0x4C, 0x61, 0x43]
        }),
{
    let first = file.take(4);
    assert(first[0] == file[0] && first[1] == file[1] && first[2] == file[2] && first[3]
        == file[3]);
    if bytes::mark4(file, 0, 0x44, 0x53, 0x44, 0x20) {
        assert(first =~= seq![0x44u8, 0x53, 0x44, 0x20]);
    }
    if bytes::mark4(file, 0, 0x46, 0x52, 0x4D, 0x38) {
        assert(first =~= seq![0x46u8, 0x52, 0x4D, 0x38]);
    }
    if bytes::mark4(file, 0, 0x66, 0x4C, 0x61, 0x43) {
        assert(first =~= seq![0x66u8, 0x4C, 0x61, 0x43]);
    }
    if first == seq![0x44u8, 0x53, 0x44, 0x20] {
        assert(first[0] == 0x44 && first[1] == 0x53 && first[2] == 0x44 && first[3] == 0x20);
    }
    if first == seq![0x46u8, 0x52, 0x4D, 0x38] {
        assert(first[0] == 0x46 && first[1] == 0x52 && first[2] == 0x4D && first[3] == 0x38);
    }
    if first == seq![0x66u8, 0x4C, 0x61, 0x43] {
        assert(first[0] == 0x66 && first[1] == 0x4C && first[2] == 0x61 && first[3] == 0x43);
    }
}

/// A file that a sheet splits holds the tracks that the sheet has in that file, in the sheet's
/// order, and each is opened through the sheet; tracks of other files are none of its. A file
/// that no sheet splits is one recording.
pub proof fn a_file_holds_the_tracks_a_sheet_has_in_it(
    path: Seq<char>,
    file: Seq<u8>,
    present: Seq<Seq<char>>,
    beside: Seq<cue::Listing>,
    sheet: cue::Listing,
    name: Seq<char>,
    index: int,
)
    requires
        !sacd::is_image_path(path),
        !cue::is_cue_path(path),
        path::file_name(path) == Some(name),
        cue::covering(beside, path, 0) == Some(sheet),
        0 <= index < sheet.tracks.len(),
        forall|i: int, j: int|
            0 <= i < j < sheet.tracks.len() ==> (#[trigger] sheet.tracks[i]).number != (
            #[trigger] sheet.tracks[j]).number,
    ensures
        ({
            let track = sheet.tracks[index];
            let named = Named { path: sheet.path, number: Some(track.number) };
            &&& recordings(path, file, present, beside) matches Ok(list)
            &&& list.contains(named) <==> path::file_name(track.file) == Some(name)
        }),
{
    let track = sheet.tracks[index];
    let named = Named { path: sheet.path, number: Some(track.number) };
    let own = cue::tracks_of(sheet.tracks, path);
    let list = sheet_refs(sheet.path, own);
    cue::the_tracks_of_a_file_go_by_its_name(sheet.tracks, name, 0, track);
    if path::file_name(track.file) == Some(name) {
        assert(sheet.tracks[index] == track);
        assert(own.contains(track));
        assert(list[own.index_of(track)] == named);
    }
    if list.contains(named) {
        let at = list.index_of(named);
        let other = own[at];
        assert(list[at] == Named { path: sheet.path, number: Some(other.number) });
        assert(own.contains(other));
        cue::the_tracks_of_a_file_go_by_its_name(sheet.tracks, name, 0, other);
        let i = choose|i: int|
            0 <= i < sheet.tracks.len() && #[trigger] sheet.tracks[i] == other && path::file_name(
                other.file,
            ) == Some(name);
        if i < index {
            assert(sheet.tracks[i].number != sheet.tracks[index].number);
        } else if index < i {
            assert(sheet.tracks[index].number != sheet.tracks[i].number);
        }
    }
}

/// A file that no sheet splits is one recording.
pub proof fn a_file_that_no_sheet_splits_is_one_recording(
    path: Seq<char>,
    file: Seq<u8>,
    present: Seq<Seq<char>>,
    beside: Seq<cue::Listing>,
)
    requires
        !sacd::is_image_path(path),
        !cue::is_cue_path(path),
        forall|i: int|
            0 <= i < beside.len() ==> cue::tracks_of((#[trigger] beside[i]).tracks, path).len()
                == 0,
    ensures
        recordings(path, file, present, beside) == Ok::<Seq<Named>, OpenFault>(
            seq![Named { path, number: None }],
        ),
{
    cue::the_first_sheet_that_names_a_file_covers_it(beside, path, 0);
}

} // verus!
