//! The transport: what plays, what plays next, and what a command makes of it.

use crate::reader::open;
use crate::reader::open::{Named, TrackRef};
use vstd::prelude::*;

verus! {

/// What the listener asks the transport for.
#[derive(Debug, PartialEq, Eq)]
pub enum Command {
    Load { tracks: Vec<TrackRef>, index: usize },
    Toggle,
    Stop,
    Skip(i32),
    /// Move the play position by so many seconds.
    Seek(i64),
    Quit,
}

#[derive(Debug, Clone, Copy, PartialEq, Eq, Structural)]
pub enum State {
    Stopped,
    Playing,
    Paused,
}

impl Default for State {
    fn default() -> (state: Self)
        ensures
            state == State::Stopped,
    {
        State::Stopped
    }
}

impl State {
    pub fn label(self) -> (label: &'static str)
        ensures
            label@ == self.name(),
    {
        match self {
            State::Stopped => "stopped",
            State::Playing => "playing",
            State::Paused => "paused",
        }
    }

    pub open spec fn name(self) -> Seq<char> {
        match self {
            State::Stopped => "stopped"@,
            State::Playing => "playing"@,
            State::Paused => "paused"@,
        }
    }

    pub fn glyph(self) -> (glyph: &'static str)
        ensures
            glyph@ == (match self {
                State::Stopped => "■"@,
                State::Playing => "▶"@,
                State::Paused => "❙❙"@,
            }),
    {
        match self {
            State::Stopped => "■",
            State::Playing => "▶",
            State::Paused => "❙❙",
        }
    }
}

/// What there is to do with the session.
#[derive(Debug, Clone, Copy, PartialEq, Eq, Structural)]
pub enum Action {
    Nothing,
    /// End the session there is, if there is one, and open the track at a place of the
    /// playlist.
    Play(usize),
    /// End the session, leaving a natively claimed DAC held for the next one.
    End,
    /// End the session and give a natively claimed DAC back, so the rest of the system can use
    /// it again while nothing is playing.
    Stop,
    /// End the session likewise and say that the DAC stopped accepting transfers.
    Stall,
    Pause(bool),
    Seek(i64),
    /// Stop playing and leave.
    Quit,
}

/// The playlist, the place in it, and whether something plays.
#[derive(Debug, PartialEq, Eq)]
pub struct Deck {
    pub playlist: Vec<TrackRef>,
    pub index: usize,
    /// There is a session.
    pub playing: bool,
}

/// The same as characters.
#[verifier::ext_equal]
pub struct Transport {
    pub playlist: Seq<Named>,
    pub index: int,
    pub playing: bool,
}

impl View for Deck {
    type V = Transport;

    open spec fn view(&self) -> Transport {
        Transport {
            playlist: open::named_view(self.playlist@),
            index: self.index as int,
            playing: self.playing,
        }
    }
}

impl Default for Deck {
    fn default() -> (deck: Self)
        ensures
            deck@ == (Transport { playlist: Seq::empty(), index: 0, playing: false }),
    {
        let deck: Deck = Deck { playlist: Vec::new(), index: 0, playing: false };
        assert(deck@.playlist =~= Seq::empty());
        deck
    }
}

impl Transport {
    /// Play the track at `index`, replacing whatever is playing now.
    pub open spec fn started(self, index: int) -> (Transport, Action) {
        if 0 <= index < self.playlist.len() {
            (Transport { index, playing: true, ..self }, Action::Play(index as usize))
        } else {
            (Transport { playing: false, ..self }, Action::End)
        }
    }

    /// What a command makes of the transport, where the session is paused or not.
    pub open spec fn told(self, command: Command, paused: bool) -> (Transport, Action) {
        match command {
            Command::Load { tracks, index } => Transport {
                playlist: open::named_view(tracks@),
                ..self
            }.started(index as int),
            Command::Toggle => if self.playing {
                (self, Action::Pause(!paused))
            } else {
                self.started(self.index)
            },
            Command::Stop => (Transport { playing: false, ..self }, Action::Stop),
            Command::Skip(delta) => if 0 <= self.index + delta < self.playlist.len() {
                self.started(self.index + delta)
            } else {
                (self, Action::Nothing)
            },
            Command::Seek(seconds) => if self.playing {
                (self, Action::Seek(seconds))
            } else {
                (self, Action::Nothing)
            },
            Command::Quit => (Transport { playing: false, ..self }, Action::Quit),
        }
    }

    /// What becomes of the transport when the session is seen to have stalled, or to have
    /// played its track out: a stall ends playback with a reason, and a track that is played
    /// out is followed by the next, as far as there is one.
    pub open spec fn watched(self, complete: bool, stalled: bool) -> (Transport, Action) {
        if !self.playing {
            (self, Action::Nothing)
        } else if stalled {
            (Transport { playing: false, ..self }, Action::Stall)
        } else if !complete {
            (self, Action::Nothing)
        } else if self.index + 1 < self.playlist.len() {
            self.started(self.index + 1)
        } else {
            (Transport { playing: false, ..self }, Action::Stop)
        }
    }
}

impl Deck {
    fn start(&mut self, index: usize) -> (action: Action)
        ensures
            (final(self)@, action) == old(self)@.started(index as int),
    {
        if index < self.playlist.len() {
            self.index = index;
            self.playing = true;
            Action::Play(index)
        } else {
            self.playing = false;
            Action::End
        }
    }

    /// Do what a command asks.
    pub fn handle(&mut self, command: Command, paused: bool) -> (action: Action)
        ensures
            (final(self)@, action) == old(self)@.told(command, paused),
    {
        match command {
            Command::Load { tracks, index } => {
                self.playlist = tracks;
                self.start(index)
            },
            Command::Toggle => if self.playing {
                Action::Pause(!paused)
            } else {
                self.start(self.index)
            },
            Command::Stop => {
                self.playing = false;
                Action::Stop
            },
            Command::Skip(delta) => {
                let next: i128 = self.index as i128 + delta as i128;
                if next >= 0 && next < self.playlist.len() as i128 {
                    self.start(next as usize)
                } else {
                    Action::Nothing
                }
            },
            Command::Seek(seconds) => if self.playing {
                Action::Seek(seconds)
            } else {
                Action::Nothing
            },
            Command::Quit => {
                self.playing = false;
                Action::Quit
            },
        }
    }

    /// Look at how the session is doing. A dead engine ends playback, rather than leaving the
    /// transport saying "playing" over a counter that never moves and a DAC nothing will hand
    /// back; a track that has drained is followed by the next, and the last by silence.
    pub fn watch(&mut self, complete: bool, stalled: bool) -> (action: Action)
        ensures
            (final(self)@, action) == old(self)@.watched(complete, stalled),
    {
        if !self.playing {
            return Action::Nothing;
        }
        if stalled {
            self.playing = false;
            return Action::Stall;
        }
        if !complete {
            return Action::Nothing;
        }
        if self.index < self.playlist.len() && self.playlist.len() - self.index > 1 {
            self.start(self.index + 1)
        } else {
            self.playing = false;
            Action::Stop
        }
    }

    /// Take note of whether the track that was to be played did open.
    pub fn opened(&mut self, open: bool)
        ensures
            final(self)@ == (Transport { playing: open, ..old(self)@ }),
    {
        self.playing = open;
    }

    /// What the transport is doing, where the session is paused or not.
    pub fn state(&self, paused: bool) -> (state: State)
        ensures
            state == if !self@.playing {
                State::Stopped
            } else if paused {
                State::Paused
            } else {
                State::Playing
            },
    {
        if !self.playing {
            State::Stopped
        } else if paused {
            State::Paused
        } else {
            State::Playing
        }
    }
}

/// The transport after `count` tracks have played out, each without a command in between.
pub open spec fn played_out(transport: Transport, count: nat) -> Transport
    decreases count,
{
    if count == 0 {
        transport
    } else {
        played_out(transport, (count - 1) as nat).watched(true, false).0
    }
}

/// Loading a playlist at a place plays it from there to its end, one track after another in the
/// order it was given, and then stops.
pub proof fn a_playlist_plays_on_in_order(transport: Transport, tracks: Vec<TrackRef>, index: usize, count: nat)
    requires
        index + count < tracks@.len(),
    ensures
        ({
            let loaded = transport.told(Command::Load { tracks, index }, false);
            let on = played_out(loaded.0, count);
            let after = on.watched(true, false);
            &&& loaded.1 == Action::Play(index)
            &&& on.playing
            &&& on.index == index + count
            &&& on.playlist == open::named_view(tracks@)
            &&& after.1 == if index + count + 1 < tracks@.len() {
                Action::Play((index + count + 1) as usize)
            } else {
                Action::Stop
            }
            &&& after.0.playing == (index + count + 1 < tracks@.len())
        }),
    decreases count,
{
    if count > 0 {
        a_playlist_plays_on_in_order(transport, tracks, index, (count - 1) as nat);
    }
}

/// Only loading changes the playlist, whatever else is commanded or happens, and the place in it
/// only moves to a track that then plays.
pub proof fn only_loading_changes_the_playlist(
    transport: Transport,
    command: Command,
    paused: bool,
    complete: bool,
    stalled: bool,
)
    ensures
        !(command is Load) ==> transport.told(command, paused).0.playlist == transport.playlist,
        transport.watched(complete, stalled).0.playlist == transport.playlist,
        transport.told(command, paused).0.index != transport.index ==> transport.told(
            command,
            paused,
        ).1 == Action::Play(transport.told(command, paused).0.index as usize),
        transport.watched(complete, stalled).0.index != transport.index ==> transport.watched(
            complete,
            stalled,
        ).1 == Action::Play(transport.watched(complete, stalled).0.index as usize),
{
}

/// Skipping goes as many tracks on or back as it is told, and the same number the other way goes
/// back to where it was. A skip past either end of the playlist does nothing.
pub proof fn skipping_there_and_back(transport: Transport, delta: i32, paused: bool)
    requires
        0 <= transport.index < transport.playlist.len() <= usize::MAX,
        delta > i32::MIN,
    ensures
        ({
            let (there, action) = transport.told(Command::Skip(delta), paused);
            let back = there.told(Command::Skip((-delta) as i32), paused);
            let there_is = 0 <= transport.index + delta < transport.playlist.len();
            &&& there_is ==> action == Action::Play((transport.index + delta) as usize)
            &&& there_is ==> back.1 == Action::Play(transport.index as usize) && back.0.index
                == transport.index && back.0.playing
            &&& !there_is ==> there == transport && action == Action::Nothing
        }),
{
}

/// What is playing is paused, and what is paused goes on; a track that was stopped is played
/// again from its start. Nothing that is stopped can be sought in, stall or play out.
pub proof fn a_stopped_track_starts_again(
    transport: Transport,
    paused: bool,
    seconds: i64,
    complete: bool,
    stalled: bool,
)
    requires
        0 <= transport.index < transport.playlist.len() <= usize::MAX,
    ensures
        ({
            let (stopped, action) = transport.told(Command::Stop, paused);
            let (again, play) = stopped.told(Command::Toggle, paused);
            &&& action == Action::Stop
            &&& !stopped.playing
            &&& play == Action::Play(transport.index as usize)
            &&& again.playing && again.index == transport.index
            &&& stopped.told(Command::Seek(seconds), paused) == (stopped, Action::Nothing)
            &&& stopped.watched(complete, stalled) == (stopped, Action::Nothing)
            &&& again.told(Command::Toggle, false) == (again, Action::Pause(true))
            &&& again.told(Command::Toggle, true) == (again, Action::Pause(false))
            &&& again.told(Command::Seek(seconds), paused) == (again, Action::Seek(seconds))
            &&& again.watched(complete, true).1 == Action::Stall && !again.watched(
                complete,
                true,
            ).0.playing
            &&& again.watched(false, false) == (again, Action::Nothing)
        }),
{
}

} // verus!
