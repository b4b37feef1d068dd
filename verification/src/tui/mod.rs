//! The terminal browser and transport, apart from the terminal itself.

pub mod browser;
pub mod engine;
pub mod view;

use crate::path;
use crate::reader::open;
use crate::reader::open::{Named, TrackRef};
use crate::text;
use crate::tui::browser::{Browser, Entry, Kind, Meaning};
use vstd::prelude::*;

verus! {

/// Seconds one press of a seek key moves the play position.
pub const SEEK_SECONDS: i64 = 5;

/// A key of the keyboard, as far as any of them means something here.
#[derive(Debug, Clone, Copy, PartialEq, Eq, Structural)]
pub enum Key {
    Char(char),
    Up,
    Down,
    Left,
    Right,
    PageUp,
    PageDown,
    Home,
    End,
    Enter,
    Backspace,
    Esc,
    Other,
}

/// What a key asks for.
#[derive(Debug, Clone, Copy, PartialEq, Eq, Structural)]
pub enum Wish {
    Quit,
    /// Move the cursor by so many rows.
    MoveBy(i32),
    First,
    Last,
    /// Open the row under the cursor.
    Open,
    /// Go to where the way out leads.
    Leave,
    Toggle,
    Stop,
    /// Play the track so many places on.
    Skip(i32),
    /// Move the play position by so many seconds.
    Seek(i64),
    Refresh,
    Nothing,
}

/// What a letter asks for.
pub open spec fn letter_wish(letter: char) -> Wish {
    if letter == 'q' {
        Wish::Quit
    } else if letter == 'k' {
        Wish::MoveBy((-1) as i32)
    } else if letter == 'j' {
        Wish::MoveBy(1)
    } else if letter == 'l' {
        Wish::Open
    } else if letter == 'h' {
        Wish::Leave
    } else if letter == ' ' {
        Wish::Toggle
    } else if letter == 's' {
        Wish::Stop
    } else if letter == 'n' {
        Wish::Skip(1)
    } else if letter == 'p' {
        Wish::Skip((-1) as i32)
    } else if letter == ',' {
        Wish::Seek((-SEEK_SECONDS) as i64)
    } else if letter == '.' {
        Wish::Seek(SEEK_SECONDS)
    } else if letter == 'r' {
        Wish::Refresh
    } else {
        Wish::Nothing
    }
}

/// What a key asks for. Control and C quit, as they would without a screen.
pub open spec fn key_wish(key: Key, control: bool) -> Wish {
    if control && key == Key::Char('c') {
        Wish::Quit
    } else {
        match key {
            Key::Char(letter) => letter_wish(letter),
            Key::Esc => Wish::Quit,
            Key::Up => Wish::MoveBy((-1) as i32),
            Key::Down => Wish::MoveBy(1),
            Key::PageUp => Wish::MoveBy((-10) as i32),
            Key::PageDown => Wish::MoveBy(10),
            Key::Home => Wish::First,
            Key::End => Wish::Last,
            Key::Enter | Key::Right => Wish::Open,
            Key::Backspace | Key::Left => Wish::Leave,
            Key::Other => Wish::Nothing,
        }
    }
}

fn wish_of(letter: char) -> (wish: Wish)
    ensures
        wish == letter_wish(letter),
{
    if letter == 'q' {
        Wish::Quit
    } else if letter == 'k' {
        Wish::MoveBy(-1)
    } else if letter == 'j' {
        Wish::MoveBy(1)
    } else if letter == 'l' {
        Wish::Open
    } else if letter == 'h' {
        Wish::Leave
    } else if letter == ' ' {
        Wish::Toggle
    } else if letter == 's' {
        Wish::Stop
    } else if letter == 'n' {
        Wish::Skip(1)
    } else if letter == 'p' {
        Wish::Skip(-1)
    } else if letter == ',' {
        Wish::Seek(-SEEK_SECONDS)
    } else if letter == '.' {
        Wish::Seek(SEEK_SECONDS)
    } else if letter == 'r' {
        Wish::Refresh
    } else {
        Wish::Nothing
    }
}

/// What a key asks for.
pub fn on_key(key: Key, control: bool) -> (wish: Wish)
    ensures
        wish == key_wish(key, control),
{
    if control {
        if let Key::Char(letter) = key {
            if letter == 'c' {
                return Wish::Quit;
            }
        }
    }
    match key {
        Key::Char(letter) => wish_of(letter),
        Key::Esc => Wish::Quit,
        Key::Up => Wish::MoveBy(-1),
        Key::Down => Wish::MoveBy(1),
        Key::PageUp => Wish::MoveBy(-10),
        Key::PageDown => Wish::MoveBy(10),
        Key::Home => Wish::First,
        Key::End => Wish::Last,
        Key::Enter | Key::Right => Wish::Open,
        Key::Backspace | Key::Left => Wish::Leave,
        Key::Other => Wish::Nothing,
    }
}

/// What opening the row under the cursor comes to.
#[derive(Debug, PartialEq, Eq)]
pub enum Opened {
    Nothing,
    /// Descend into a folder or a disc.
    Enter(String),
    /// Play the listing from a track of it on.
    Play { tracks: Vec<TrackRef>, index: usize },
}

/// Two references to one track: the same number, in files that are named alike.
pub open spec fn alike(a: Named, b: Named) -> bool {
    a.number == b.number && path::same(a.path, b.path)
}

/// Where the tracks from `index` on first hold one.
pub open spec fn first_of(tracks: Seq<Named>, track: Named, index: int) -> int
    decreases tracks.len() - index,
{
    if index < 0 || index >= tracks.len() {
        0
    } else if alike(tracks[index], track) {
        index
    } else {
        first_of(tracks, track, index + 1)
    }
}

fn same_track(a: &TrackRef, b: &TrackRef) -> (same: bool)
    ensures
        same == alike(a@, b@),
{
    let numbers: bool = match (a.number, b.number) {
        (Some(first), Some(second)) => first == second,
        (None, None) => true,
        _ => false,
    };
    numbers && path::same_path(a.path.as_str(), b.path.as_str())
}

fn index_of(tracks: &Vec<TrackRef>, track: &TrackRef) -> (index: usize)
    ensures
        index == first_of(open::named_view(tracks@), track@, 0),
{
    let ghost named = open::named_view(tracks@);
    let mut i: usize = 0;
    while i < tracks.len()
        invariant
            i <= tracks@.len(),
            named == open::named_view(tracks@),
            first_of(named, track@, 0) == first_of(named, track@, i as int),
        decreases tracks@.len() - i,
    {
        assert(named[i as int] == tracks@[i as int]@);
        if same_track(&tracks[i], track) {
            return i;
        }
        i += 1;
    }
    0
}

/// A folder is descended into; a recording starts the whole listing playing from it.
pub fn open_selection(browser: &Browser) -> (opened: Opened)
    ensures
        ({
            let pane = browser@;
            if pane.selected >= pane.rows.len() {
                opened is Nothing
            } else {
                let row = pane.rows[pane.selected];
                match row.kind {
                    Meaning::Track(named) => {
                        let playlist = browser::tracks_from(pane.rows, 0);
                        &&& opened matches Opened::Play { tracks, index }
                        &&& open::named_view(tracks@) == playlist
                        &&& index == first_of(playlist, named, 0)
                    },
                    _ => opened matches Opened::Enter(path) && path@ == row.path,
                }
            }
        }),
{
    let entry: &Entry = match browser.selection() {
        Some(entry) => entry,
        None => {
            return Opened::Nothing;
        },
    };
    match &entry.kind {
        Kind::Track(track) => {
            let tracks: Vec<TrackRef> = browser.playable();
            let index: usize = index_of(&tracks, track);
            Opened::Play { tracks, index }
        },
        Kind::Folder | Kind::Disc => Opened::Enter(text::owned(entry.path.as_str())),
    }
}

/// Opening a recording plays that recording: the playlist it starts holds the row under the
/// cursor at the place playing starts from.
pub proof fn opening_a_recording_plays_it(rows: Seq<browser::Row>, selected: int)
    requires
        0 <= selected < rows.len(),
        rows[selected].kind is Track,
    ensures
        ({
            let playlist = browser::tracks_from(rows, 0);
            let index = first_of(playlist, rows[selected].kind->Track_0, 0);
            0 <= index < playlist.len() && alike(playlist[index], rows[selected].kind->Track_0)
        }),
{
    lemma_listed(rows, 0, selected);
    lemma_first_of(browser::tracks_from(rows, 0), rows[selected].kind->Track_0, 0);
}

proof fn lemma_listed(rows: Seq<browser::Row>, index: int, selected: int)
    requires
        0 <= index <= selected < rows.len(),
        rows[selected].kind is Track,
    ensures
        browser::tracks_from(rows, index).contains(rows[selected].kind->Track_0),
    decreases rows.len() - index,
{
    let tracks = browser::tracks_from(rows, index);
    if index == selected {
        assert(tracks[0] == rows[selected].kind->Track_0);
    } else {
        lemma_listed(rows, index + 1, selected);
        let later = browser::tracks_from(rows, index + 1);
        let at = later.index_of(rows[selected].kind->Track_0);
        if rows[index].kind is Track {
            assert(tracks[at + 1] == later[at]);
        }
    }
}

proof fn lemma_first_of(tracks: Seq<Named>, track: Named, index: int)
    requires
        0 <= index <= tracks.len(),
        exists|k: int| index <= k < tracks.len() && alike(#[trigger] tracks[k], track),
    ensures
        0 <= first_of(tracks, track, index) < tracks.len(),
        alike(tracks[first_of(tracks, track, index)], track),
    decreases tracks.len() - index,
{
    if !alike(tracks[index], track) {
        lemma_first_of(tracks, track, index + 1);
    }
}

/// The folder to go to from here, if there is one above.
pub fn go_up(browser: &Browser) -> (out: Option<String>)
    ensures
        text::option_view(out) == path::parent(browser@.dir),
{
    path::parent_of(browser.dir.as_str())
}

/// Letters do what the keys beside them do: h, j, k and l move as the arrows, q leaves as escape
/// does, and so does C with control.
pub proof fn letters_do_what_keys_do(control: bool)
    ensures
        key_wish(Key::Char('k'), control) == key_wish(Key::Up, control),
        key_wish(Key::Char('j'), control) == key_wish(Key::Down, control),
        key_wish(Key::Char('l'), control) == key_wish(Key::Right, control),
        key_wish(Key::Char('h'), control) == key_wish(Key::Left, control),
        key_wish(Key::Enter, control) == key_wish(Key::Right, control),
        key_wish(Key::Backspace, control) == key_wish(Key::Left, control),
        key_wish(Key::Char('q'), control) == key_wish(Key::Esc, control),
        key_wish(Key::Char('c'), true) == key_wish(Key::Esc, control),
        key_wish(Key::Char('c'), false) == key_wish(Key::Other, control),
        key_wish(Key::Right, control) == Wish::Open,
        key_wish(Key::Left, control) == Wish::Leave,
        key_wish(Key::Esc, control) == Wish::Quit,
        key_wish(Key::Other, control) == Wish::Nothing,
        key_wish(Key::Char(' '), control) == Wish::Toggle,
        key_wish(Key::Char('s'), control) == Wish::Stop,
        key_wish(Key::Char('r'), control) == Wish::Refresh,
        key_wish(Key::Home, control) == Wish::First,
        key_wish(Key::End, control) == Wish::Last,
{
}

/// Keys that go opposite ways go equally far: up as down, a page up as a page down, the track
/// before as the next, and back as on. Down, the next and on go forward.
pub proof fn opposite_keys_go_equally_far(control: bool)
    ensures
        key_wish(Key::Down, control) matches Wish::MoveBy(down) && key_wish(
            Key::Up,
            control,
        ) matches Wish::MoveBy(up) && down == 1 && up + down == 0,
        key_wish(Key::PageDown, control) matches Wish::MoveBy(down) && key_wish(
            Key::PageUp,
            control,
        ) matches Wish::MoveBy(up) && down == 10 && up + down == 0,
        key_wish(Key::Char('n'), control) matches Wish::Skip(next) && key_wish(
            Key::Char('p'),
            control,
        ) matches Wish::Skip(before) && next == 1 && before + next == 0,
        key_wish(Key::Char('.'), control) matches Wish::Seek(on) && key_wish(
            Key::Char(','),
            control,
        ) matches Wish::Seek(back) && on == 5 && back + on == 0,
{
}

/// Where a track stands in a list is the first place that holds it.
pub proof fn a_track_is_found_where_it_first_stands(
    tracks: Seq<Named>,
    track: Named,
    index: int,
    at: int,
)
    requires
        0 <= index <= at < tracks.len(),
        alike(tracks[at], track),
        forall|k: int| index <= k < at ==> !alike(#[trigger] tracks[k], track),
    ensures
        first_of(tracks, track, index) == at,
    decreases at - index,
{
    if index < at {
        assert(!alike(tracks[index], track));
        a_track_is_found_where_it_first_stands(tracks, track, index + 1, at);
    }
}

} // verus!
