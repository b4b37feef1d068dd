//! What the screen says, line by line.

use crate::player;
use crate::player::{DeviceInfo, Progress, TrackInfo};
use crate::reader::open::TrackRef;
use crate::reader::tags::TrackTags;
use crate::text;
use crate::tui::browser::{Browser, Entry};
use crate::tui::engine::State;
use vstd::prelude::*;

verus! {

/// The key hints.
pub const KEYS: &'static str =
    " ↑↓ move   enter open   space play/pause   s stop   n/p track   ,/. seek   r refresh   q quit";

/// Columns a label takes up.
pub const LABEL_WIDTH: usize = 11;

/// One line of the debug pane: a label and what it stands for.
#[derive(Debug, PartialEq, Eq)]
pub struct Line {
    pub label: &'static str,
    pub value: String,
}

/// The same as characters.
#[verifier::ext_equal]
pub struct Shown {
    pub label: Seq<char>,
    pub value: Seq<char>,
}

impl View for Line {
    type V = Shown;

    open spec fn view(&self) -> Shown {
        Shown { label: self.label@, value: self.value@ }
    }
}

/// Lines as characters.
pub open spec fn shown(lines: Seq<Line>) -> Seq<Shown> {
    lines.map_values(|line: Line| line@)
}

/// A label with blanks after it, up to the width of its column. A line without a label starts
/// at the edge.
pub open spec fn padded(label: Seq<char>) -> Seq<char> {
    if 0 < label.len() < LABEL_WIDTH {
        label + Seq::new((LABEL_WIDTH - label.len()) as nat, |i: int| ' ')
    } else {
        label
    }
}

/// A label with blanks after it, up to the width of its column.
pub fn pad(label: &str) -> (out: String)
    ensures
        out@ == padded(label@),
{
    let letters: Vec<char> = text::chars_of(label);
    let mut out: String = text::owned(label);
    if letters.len() == 0 {
        return out;
    }
    let mut width: usize = letters.len();
    while width < LABEL_WIDTH
        invariant
            width >= letters@.len() > 0,
            letters@ == label@,
            width <= LABEL_WIDTH || width == letters@.len(),
            out@ == label@ + Seq::new((width - letters@.len()) as nat, |i: int| ' '),
        decreases LABEL_WIDTH - width,
    {
        out.push(' ');
        width += 1;
        assert(out@ =~= label@ + Seq::new((width - letters@.len()) as nat, |i: int| ' '));
    }
    assert(out@ =~= padded(label@));
    out
}

impl Line {
    /// The line as one text.
    pub fn line(&self) -> (out: String)
        ensures
            out@ == padded(self@.label) + self@.value,
    {
        let mut out: String = pad(self.label);
        out.append(self.value.as_str());
        out
    }
}

/// Figures of a session that are not whole numbers, each as it is shown.
#[derive(Debug, PartialEq, Eq)]
pub struct Figures {
    /// Milliseconds the device's own buffer lasts.
    pub buffer_ms: String,
    /// How full the queue is, in percent, right-aligned in three columns.
    pub queue_percent: String,
    /// Milliseconds of silence that filled underruns.
    pub silence_ms: String,
    /// The device's volume in percent, where it is turned down and the samples pass through
    /// Core Audio.
    pub volume_percent: Option<String>,
}

/// What is said of a volume that is turned down.
pub open spec fn volume_note(percent: Option<String>) -> Seq<char> {
    match percent {
        Some(percent) => ", device volume "@ + percent@ + "% — may break DSD lock"@,
        None => ""@,
    }
}

/// What the device settled on, and how the samples reach it.
pub open spec fn device_lines(device: DeviceInfo, figures: Figures) -> Seq<Shown> {
    seq![
        Shown {
            label: "device"@,
            value: device.name@ + "  "@ + player::claim_text(device.exclusive)
                + player::mixing_text(device.mixing_disabled),
        },
        Shown {
            label: "transport"@,
            value: device.transport@ + " "@ + text::decimal(device.bits as nat) + " bit, "@
                + device.carrier@ + " "@ + text::decimal(device.pcm_rate as nat) + " Hz"@
                + volume_note(figures.volume_percent),
        },
        Shown {
            label: "io buffer"@,
            value: text::decimal(device.buffer_frames as nat) + " frames ("@ + figures.buffer_ms@
                + " ms)"@,
        },
    ]
}

/// What the transport is doing right now.
pub open spec fn progress_lines(track: TrackInfo, progress: Progress, figures: Figures) -> Seq<
    Shown,
> {
    seq![
        Shown {
            label: "queue"@,
            value: figures.queue_percent@ + "%   "@ + text::decimal(progress.queued_frames as nat)
                + " of "@ + text::decimal(progress.queue_frames as nat) + " frames"@,
        },
        Shown {
            label: "underruns"@,
            value: text::decimal(progress.underrun_frames as nat) + " frames ("@
                + figures.silence_ms@ + " ms of DSD silence)"@,
        },
        Shown {
            label: "frames"@,
            value: text::decimal(progress.frames_played as nat) + " of "@ + text::decimal(
                track.total_frames as nat,
            ),
        },
    ]
}

/// What the recording is made of, where it is DSD.
pub open spec fn stream_lines(track: TrackInfo) -> Seq<Shown> {
    match (track.format.dsd_rate(), track.bytes_per_channel) {
        (Some(rate), Some(bytes)) => seq![
            Shown {
                label: "stream"@,
                value: text::decimal(rate as nat) + " bit/s per channel, "@ + text::decimal(
                    bytes as nat,
                ) + " bytes per channel"@,
            },
        ],
        _ => Seq::empty(),
    }
}

fn push_device_lines(lines: &mut Vec<Line>, device: &DeviceInfo, figures: &Figures)
    ensures
        shown(final(lines)@) == shown(old(lines)@) + device_lines(*device, *figures),
{
    let ghost before = shown(lines@);
    let mut held: String = text::owned(device.name.as_str());
    held.append("  ");
    held.append(device.claim());
    held.append(device.mixing());
    let mut transport: String = text::owned(device.transport);
    transport.append(" ");
    transport.append(text::decimal_of(device.bits as u64).as_str());
    transport.append(" bit, ");
    transport.append(device.carrier);
    transport.append(" ");
    transport.append(text::decimal_of(device.pcm_rate as u64).as_str());
    transport.append(" Hz");
    match &figures.volume_percent {
        Some(percent) => {
            let ghost told = transport@;
            transport.append(", device volume ");
            transport.append(percent.as_str());
            transport.append("% — may break DSD lock");
            assert(transport@ =~= told + volume_note(figures.volume_percent));
        },
        None => {
            proof { reveal_strlit(""); }
            assert(transport@ =~= transport@ + volume_note(figures.volume_percent));
        },
    }
    let mut buffer: String = text::decimal_of(device.buffer_frames as u64);
    buffer.append(" frames (");
    buffer.append(figures.buffer_ms.as_str());
    buffer.append(" ms)");
    lines.push(Line { label: "device", value: held });
    lines.push(Line { label: "transport", value: transport });
    lines.push(Line { label: "io buffer", value: buffer });
    assert(shown(lines@) =~= before + device_lines(*device, *figures));
}

fn push_progress_lines(
    lines: &mut Vec<Line>,
    track: &TrackInfo,
    progress: Progress,
    figures: &Figures,
)
    ensures
        shown(final(lines)@) == shown(old(lines)@) + progress_lines(*track, progress, *figures),
{
    let ghost before = shown(lines@);
    let mut queue: String = text::owned(figures.queue_percent.as_str());
    queue.append("%   ");
    queue.append(text::decimal_of(progress.queued_frames).as_str());
    queue.append(" of ");
    queue.append(text::decimal_of(progress.queue_frames).as_str());
    queue.append(" frames");
    let mut underruns: String = text::decimal_of(progress.underrun_frames);
    underruns.append(" frames (");
    underruns.append(figures.silence_ms.as_str());
    underruns.append(" ms of DSD silence)");
    let mut frames: String = text::decimal_of(progress.frames_played);
    frames.append(" of ");
    frames.append(text::decimal_of(track.total_frames).as_str());
    lines.push(Line { label: "queue", value: queue });
    lines.push(Line { label: "underruns", value: underruns });
    lines.push(Line { label: "frames", value: frames });
    assert(shown(lines@) =~= before + progress_lines(*track, progress, *figures));
}

/// The debug pane of a session.
pub fn debug_rows(
    device: &DeviceInfo,
    track: &TrackInfo,
    progress: Progress,
    figures: &Figures,
) -> (lines: Vec<Line>)
    ensures
        shown(lines@) == device_lines(*device, *figures) + progress_lines(
            *track,
            progress,
            *figures,
        ) + stream_lines(*track),
{
    let mut lines: Vec<Line> = Vec::new();
    push_device_lines(&mut lines, device, figures);
    push_progress_lines(&mut lines, track, progress, figures);
    let ghost before = shown(lines@);
    if let (Some(format), Some(bytes)) = (track.format.dsd(), track.bytes_per_channel) {
        let mut stream: String = text::decimal_of(format.rate.hz() as u64);
        stream.append(" bit/s per channel, ");
        stream.append(text::decimal_of(bytes).as_str());
        stream.append(" bytes per channel");
        lines.push(Line { label: "stream", value: stream });
    }
    assert(shown(lines@) =~= before + stream_lines(*track));
    assert(shown(lines@) =~= device_lines(*device, *figures) + progress_lines(
        *track,
        progress,
        *figures,
    ) + stream_lines(*track));
    lines
}

/// What the debug pane says where there is no session.
pub open spec fn idle_lines() -> Seq<Shown> {
    seq![Shown { label: ""@, value: "nothing playing"@ }]
}

/// The line that says what went wrong, if something did.
pub open spec fn error_lines(error: Option<Seq<char>>) -> Seq<Shown> {
    match error {
        Some(error) => seq![Shown { label: "error"@, value: error }],
        None => Seq::empty(),
    }
}

/// The debug pane: the session, where there is one, and what went wrong.
pub fn debug_pane(
    session: Option<(&DeviceInfo, &TrackInfo, Progress, &Figures)>,
    error: &Option<String>,
) -> (lines: Vec<Line>)
    ensures
        shown(lines@) == (match session {
            Some((device, track, progress, figures)) => device_lines(*device, *figures)
                + progress_lines(*track, progress, *figures) + stream_lines(*track),
            None => idle_lines(),
        }) + error_lines(text::option_view(*error)),
{
    let mut lines: Vec<Line> = match session {
        Some((device, track, progress, figures)) => debug_rows(device, track, progress, figures),
        None => {
            let mut lines: Vec<Line> = Vec::new();
            lines.push(Line { label: "", value: text::owned("nothing playing") });
            assert(shown(lines@) =~= idle_lines());
            lines
        },
    };
    let ghost before = shown(lines@);
    if let Some(error) = error {
        lines.push(Line { label: "error", value: text::owned(error.as_str()) });
    }
    assert(shown(lines@) =~= before + error_lines(text::option_view(*error)));
    lines
}

/// The screen's two lines naming what plays: the artist and title with the album beneath, or
/// the name of the file where it carries no tags.
pub fn names(track: Option<&TrackRef>, tags: &TrackTags) -> (out: (String, Option<String>))
    ensures
        out.0@ == (match (track, tags@.headline()) {
            (None, _) => "nothing loaded"@,
            (Some(_), Some(headline)) => headline,
            (Some(track), None) => track@.label(),
        }),
        text::option_view(out.1) == (if track is Some {
            tags@.album
        } else {
            None
        }),
{
    match track {
        None => (text::owned("nothing loaded"), None),
        Some(track) => {
            let name: String = match tags.headline() {
                Some(headline) => headline,
                None => track.label(),
            };
            (name, text::owned_option(&tags.album))
        },
    }
}

/// What is said of the place in the playlist, if there is one.
pub open spec fn place_text(index: int, total: int) -> Seq<char> {
    if total == 0 {
        ""@
    } else {
        "   track "@ + text::decimal((index + 1) as nat) + " of "@ + text::decimal(total as nat)
    }
}

/// What the transport is doing, how far it has got, and where that is in the playlist.
pub fn status_line(
    state: State,
    elapsed_seconds: u64,
    duration_seconds: u64,
    index: usize,
    total: usize,
) -> (line: String)
    requires
        index < usize::MAX,
    ensures
        line@ == " "@ + state.name() + "   "@ + player::clock_text(elapsed_seconds as int) + " / "@
            + player::clock_text(duration_seconds as int) + place_text(index as int, total as int),
{
    let mut line: String = text::owned(" ");
    line.append(state.label());
    line.append("   ");
    line.append(player::clock(elapsed_seconds).as_str());
    line.append(" / ");
    line.append(player::clock(duration_seconds).as_str());
    let ghost before = line@;
    if total == 0 {
        proof { reveal_strlit(""); }
        assert(line@ =~= before + place_text(index as int, total as int));
    } else {
        line.append("   track ");
        line.append(text::decimal_of((index + 1) as u64).as_str());
        line.append(" of ");
        line.append(text::decimal_of(total as u64).as_str());
        assert(line@ =~= before + place_text(index as int, total as int));
    }
    line
}

/// What a row of the file pane shows: what the tags call it, or its name, with a slash after
/// what opens.
pub fn row_text(entry: &Entry) -> (out: String)
    ensures
        ({
            let row = entry@;
            let name = match row.title {
                Some(title) => title,
                None => row.name,
            };
            out@ == if row.kind is Track {
                name
            } else {
                name + "/"@
            }
        }),
{
    let mut out: String = match &entry.title {
        Some(title) => text::owned(title.as_str()),
        None => text::owned(entry.name.as_str()),
    };
    if entry.kind.opens() {
        out.append("/");
    }
    out
}

/// A path with the home folder in front of it, where it is, written as a tilde.
pub open spec fn short(dir: Seq<char>, home: Option<Seq<char>>) -> Seq<char> {
    match home {
        Some(home) => if text::stands_at(dir, home, 0) {
            seq!['~'] + dir.skip(home.len() as int)
        } else {
            dir
        },
        None => dir,
    }
}

/// Directory titles are long and the pane is narrow, so abbreviate home and keep the tail.
pub fn short_path(dir: &str, home: Option<&str>) -> (out: String)
    ensures
        out@ == short(
            dir@,
            match home {
                Some(home) => Some(home@),
                None => None,
            },
        ),
{
    let folder: &str = match home {
        Some(home) => home,
        None => {
            return text::owned(dir);
        },
    };
    let letters: Vec<char> = text::chars_of(dir);
    let start: Vec<char> = text::chars_of(folder);
    if start.len() > letters.len() {
        return text::owned(dir);
    }
    let mut i: usize = 0;
    while i < start.len()
        invariant
            i <= start@.len() <= letters@.len(),
            letters@ == dir@,
            start@ == folder@,
            home == Some(folder),
            forall|k: int| 0 <= k < i ==> letters@[k] == start@[k],
        decreases start@.len() - i,
    {
        if letters[i] != start[i] {
            proof {
                if text::stands_at(dir@, folder@, 0) {
                    assert(dir@.subrange(0, folder@.len() as int)[i as int] == dir@[i as int]);
                }
            }
            return text::owned(dir);
        }
        i += 1;
    }
    assert(dir@.subrange(0, folder@.len() as int) =~= folder@);
    let mut out: String = String::new();
    out.push('~');
    let rest: String = text::text_between(&letters, start.len(), letters.len());
    out.append(rest.as_str());
    assert(out@ =~= short(dir@, Some(folder@)));
    out
}

/// The footer replaces the key hints with whatever most recently went wrong.
pub fn footer(browser: &Browser, state: State, error: &Option<String>) -> (line: String)
    ensures
        line@ == (match (browser@.error, text::option_view(*error)) {
            (Some(error), _) => " "@ + error,
            (None, Some(error)) => if state == State::Stopped {
                " "@ + error
            } else {
                KEYS@
            },
            (None, None) => KEYS@,
        }),
{
    if let Some(error) = &browser.error {
        let mut line: String = text::owned(" ");
        line.append(error.as_str());
        return line;
    }
    match (error, state) {
        (Some(error), State::Stopped) => {
            let mut line: String = text::owned(" ");
            line.append(error.as_str());
            line
        },
        _ => text::owned(KEYS),
    }
}

/// A path under the home folder is written with a tilde in the folder's place and the rest as it is;
/// any other stays as it is.
pub proof fn home_is_written_as_a_tilde(home: Seq<char>, rest: Seq<char>, other: Seq<char>)
    requires
        forall|rest: Seq<char>| other != #[trigger] (home + rest),
    ensures
        short(home + rest, Some(home)) == seq!['~'] + rest,
        short(other, Some(home)) == other,
        short(other, None) == other,
{
    let dir = home + rest;
    assert(dir.subrange(0, 0 + home.len() as int) =~= home);
    assert(dir.skip(home.len() as int) =~= rest);
    if text::stands_at(other, home, 0) {
        assert(other =~= home + other.skip(home.len() as int));
    }
}

/// A label keeps its letters and is followed by blanks alone; with one that is shorter, the column
/// is as wide as any.
pub proof fn a_label_is_followed_by_blanks(label: Seq<char>, index: int)
    requires
        0 < label.len(),
    ensures
        padded(label).len() >= label.len(),
        label.len() < LABEL_WIDTH ==> padded(label).len() == LABEL_WIDTH,
        0 <= index < label.len() ==> padded(label)[index] == label[index],
        label.len() <= index < padded(label).len() ==> padded(label)[index] == ' ',
{
}

} // verus!
