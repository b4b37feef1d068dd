//! Taking a device over for one track: what is asked of it, one step after another, and what
//! is put back afterwards.

use crate::output::encoding::{Encoding, EncodingError, StreamFormat};
use crate::output::stream::{wants_integer, Request};
use crate::text;
use vstd::prelude::*;

verus! {

/// What to do with the device next.
#[derive(Debug, Clone, Copy, PartialEq, Eq, Structural)]
pub enum Ask {
    /// Claim it for this process.
    Hog,
    /// Keep the mixer out, where there is a switch for it.
    DisableMixing,
    /// Set the nominal rate. Some devices only take it along with the format.
    SetRate,
    /// Set the physical format that was chosen, at the rate that is wanted.
    SetFormat,
    /// Changing the hardware format takes a while; wait until it shows the rate.
    AwaitFormat,
    /// Read the format of the buffers the device fills.
    ReadBuffers,
    /// Ask for buffers in the device's own samples.
    AskInteger,
    SetBufferFrames(u32),
    /// It is set up.
    Ready,
    /// It cannot be set up; put it back.
    Fail(SetupError),
}

/// What became of that.
#[derive(Debug, Clone, Copy, PartialEq, Eq, Structural)]
pub enum Reply {
    Done,
    /// The device would not, or there is no such thing to set.
    Refused,
    /// The format of the buffers, and the rate they run at, where that is a whole number.
    Buffers { format: StreamFormat, rate: Option<u32> },
}

/// Why a device could not be set up.
#[derive(Debug, Clone, Copy, PartialEq, Eq, Structural)]
pub enum SetupError {
    Rejected { rate: u32, bits: u32 },
    NotSettled { rate: u32 },
    NoBuffers,
    OffRate { rate: u32 },
    Encoding { error: EncodingError },
    BufferSize { frames: u32 },
}

impl SetupError {
    /// Whether the device may only have been busy: it would not take the format, or did not keep
    /// to it.
    pub fn is_busy(self) -> (yes: bool)
        ensures
            yes == (self is Rejected || self is NotSettled || self is OffRate),
    {
        match self {
            SetupError::Rejected { .. } | SetupError::NotSettled { .. }
            | SetupError::OffRate { .. } => true,
            _ => false,
        }
    }

    /// What went wrong, in a line. `settled` is the rate the device runs at instead.
    pub open spec fn line(self, settled: Seq<char>) -> Seq<char> {
        match self {
            SetupError::Rejected { rate, bits } => "device rejected "@ + text::decimal(rate as nat)
                + " Hz "@ + text::decimal(bits as nat) + " bit"@,
            SetupError::NotSettled { rate } => "device did not switch to "@ + text::decimal(
                rate as nat,
            ) + " Hz within 3 s"@,
            SetupError::NoBuffers => "device does not say what its buffers hold"@,
            SetupError::OffRate { rate } => "device settled on "@ + settled + " Hz instead of "@
                + text::decimal(rate as nat) + " Hz"@,
            SetupError::Encoding { error } => error.line(),
            SetupError::BufferSize { frames } => "device rejected a buffer of "@ + text::decimal(
                frames as nat,
            ) + " frames"@,
        }
    }

    /// What went wrong, in a line. `settled` is the rate the device runs at instead.
    pub fn message(self, settled: &str) -> (line: String)
        ensures
            line@ == self.line(settled@),
    {
        match self {
            SetupError::Rejected { rate, bits } => {
                let mut line: String = text::with_number("device rejected ", rate as u64);
                line.append(" Hz ");
                line.append(text::decimal_of(bits as u64).as_str());
                line.append(" bit");
                line
            },
            SetupError::NotSettled { rate } => {
                let mut line: String = text::with_number("device did not switch to ", rate as u64);
                line.append(" Hz within 3 s");
                line
            },
            SetupError::NoBuffers => text::owned("device does not say what its buffers hold"),
            SetupError::OffRate { rate } => {
                let mut line: String = text::owned("device settled on ");
                line.append(settled);
                line.append(" Hz instead of ");
                line.append(text::decimal_of(rate as u64).as_str());
                line.append(" Hz");
                line
            },
            SetupError::Encoding { error } => error.message(),
            SetupError::BufferSize { frames } => {
                let mut line: String = text::with_number(
                    "device rejected a buffer of ",
                    frames as u64,
                );
                line.append(" frames");
                line
            },
        }
    }
}

/// How far the device has been taken over.
#[derive(Debug, Clone, Copy, PartialEq, Eq, Structural)]
pub enum Stage {
    Hogging,
    Mixing,
    Rating,
    Formatting,
    Settling,
    Reading,
    Asking,
    Rereading,
    Sizing,
    Over,
    Failed(SetupError),
}

/// A device being taken over.
#[derive(Debug, Clone, Copy, PartialEq, Eq, Structural)]
pub struct Setup {
    pub request: Request,
    /// The physical format that was chosen.
    pub physical: StreamFormat,
    pub stage: Stage,
    pub hogged: bool,
    pub mixing_disabled: bool,
    /// The buffers as they were last seen.
    pub buffers: StreamFormat,
    /// The rate they run at, where that is a whole number.
    pub rate: Option<u32>,
    /// How words are laid out in them, once that is settled.
    pub encoding: Encoding,
}

/// A rate is the one that is wanted.
pub open spec fn shows(rate: Option<u32>, wanted: u32) -> bool {
    rate == Some(wanted)
}

/// Whether a rate, where it is a whole number, is the one that is wanted.
pub fn on_rate(rate: Option<u32>, wanted: u32) -> (yes: bool)
    ensures
        yes == shows(rate, wanted),
{
    match rate {
        Some(rate) => rate == wanted,
        None => false,
    }
}

/// Something to put back as it was found.
#[derive(Debug, Clone, Copy, PartialEq, Eq, Structural)]
pub enum Restore {
    Format,
    Rate,
    Mixing,
    Exclusive,
    /// The system's own output device, which moves elsewhere when a device is claimed and does
    /// not come back by itself.
    SystemOutput,
}

impl Setup {
    /// Buffers are only sized, and a device only ready, once they are known to run at the rate
    /// that is wanted and to carry the words.
    pub open spec fn wf(self) -> bool {
        self.stage == Stage::Sizing || self.stage == Stage::Over ==> self.settled()
    }

    /// Give up, for a reason that stays.
    pub open spec fn failed(self, error: SetupError) -> (Setup, Ask) {
        (Setup { stage: Stage::Failed(error), ..self }, Ask::Fail(error))
    }

    /// The buffers run at the rate that is wanted, and carry the words as they are laid out.
    pub open spec fn settled(self) -> bool {
        shows(self.rate, self.request.pcm_rate) && Encoding::of_format(self.buffers) == Ok::<Encoding, EncodingError>(
            self.encoding,
        )
    }

    /// What there is to do once the buffers have been seen and will not change again.
    pub open spec fn judged(self) -> (Setup, Ask) {
        if !shows(self.rate, self.request.pcm_rate) {
            self.failed(SetupError::OffRate { rate: self.request.pcm_rate })
        } else {
            match Encoding::of_format(self.buffers) {
                Err(error) => self.failed(SetupError::Encoding { error }),
                Ok(encoding) => match self.request.buffer_frames {
                    Some(frames) => (
                        Setup { stage: Stage::Sizing, encoding, ..self },
                        Ask::SetBufferFrames(frames),
                    ),
                    None => (Setup { stage: Stage::Over, encoding, ..self }, Ask::Ready),
                },
            }
        }
    }

    /// The step after `self`, where the last one was answered so.
    pub open spec fn after(self, reply: Reply) -> (Setup, Ask) {
        let done = reply == Reply::Done;
        match self.stage {
            Stage::Hogging => (
                Setup { stage: Stage::Mixing, hogged: done, ..self },
                Ask::DisableMixing,
            ),
            Stage::Mixing => (
                Setup { stage: Stage::Rating, mixing_disabled: done, ..self },
                Ask::SetRate,
            ),
            Stage::Rating => (Setup { stage: Stage::Formatting, ..self }, Ask::SetFormat),
            Stage::Formatting => if done {
                (Setup { stage: Stage::Settling, ..self }, Ask::AwaitFormat)
            } else {
                self.failed(
                    SetupError::Rejected {
                        rate: self.request.pcm_rate,
                        bits: self.physical.bits,
                    },
                )
            },
            Stage::Settling => if done {
                (Setup { stage: Stage::Reading, ..self }, Ask::ReadBuffers)
            } else {
                self.failed(SetupError::NotSettled { rate: self.request.pcm_rate })
            },
            Stage::Reading => match reply {
                Reply::Buffers { format, rate } => {
                    let seen = Setup { buffers: format, rate, ..self };
                    if is_integer(self.physical) && !is_integer(format) && self.request.exclusive {
                        (Setup { stage: Stage::Asking, ..seen }, Ask::AskInteger)
                    } else {
                        seen.judged()
                    }
                },
                _ => self.failed(SetupError::NoBuffers),
            },
            Stage::Asking => if done {
                (Setup { stage: Stage::Rereading, ..self }, Ask::ReadBuffers)
            } else {
                self.judged()
            },
            Stage::Rereading => match reply {
                Reply::Buffers { format, rate } => Setup {
                    buffers: format,
                    rate,
                    ..self
                }.judged(),
                _ => self.failed(SetupError::NoBuffers),
            },
            Stage::Sizing => if done {
                (Setup { stage: Stage::Over, ..self }, Ask::Ready)
            } else {
                self.failed(
                    SetupError::BufferSize {
                        frames: match self.request.buffer_frames {
                            Some(frames) => frames,
                            None => 0,
                        },
                    },
                )
            },
            Stage::Over => (self, Ask::Ready),
            Stage::Failed(error) => (self, Ask::Fail(error)),
        }
    }

    /// What has to be put back, in the order it is put back in.
    pub open spec fn undone(self) -> Seq<Restore> {
        let both = seq![Restore::Format, Restore::Rate];
        let mixed = if self.mixing_disabled {
            both.push(Restore::Mixing)
        } else {
            both
        };
        if self.hogged {
            mixed.push(Restore::Exclusive).push(Restore::SystemOutput)
        } else {
            mixed
        }
    }

    /// Start taking a device over, by claiming it where that is wanted.
    pub fn begin(request: Request, physical: StreamFormat) -> (out: (Self, Ask))
        ensures
            out.0.wf(),
            out.0.request == request,
            out.0.physical == physical,
            !out.0.hogged && !out.0.mixing_disabled,
            (out.0.stage, out.1) == if request.exclusive {
                (Stage::Hogging, Ask::Hog)
            } else {
                (Stage::Rating, Ask::SetRate)
            },
    {
        let (stage, ask): (Stage, Ask) = if request.exclusive {
            (Stage::Hogging, Ask::Hog)
        } else {
            (Stage::Rating, Ask::SetRate)
        };
        let setup: Setup = Setup {
            request,
            physical,
            stage,
            hogged: false,
            mixing_disabled: false,
            buffers: physical,
            rate: None,
            encoding: Encoding::Float32,
        };
        (setup, ask)
    }

    fn fail(&mut self, error: SetupError) -> (ask: Ask)
        ensures
            (*final(self), ask) == old(self).failed(error),
    {
        self.stage = Stage::Failed(error);
        Ask::Fail(error)
    }

    fn judge(&mut self) -> (ask: Ask)
        ensures
            (*final(self), ask) == old(self).judged(),
    {
        if !on_rate(self.rate, self.request.pcm_rate) {
            let rate: u32 = self.request.pcm_rate;
            return self.fail(SetupError::OffRate { rate });
        }
        match Encoding::from_format(&self.buffers) {
            Err(error) => self.fail(SetupError::Encoding { error }),
            Ok(encoding) => {
                self.encoding = encoding;
                match self.request.buffer_frames {
                    Some(frames) => {
                        self.stage = Stage::Sizing;
                        Ask::SetBufferFrames(frames)
                    },
                    None => {
                        self.stage = Stage::Over;
                        Ask::Ready
                    },
                }
            },
        }
    }

    /// Take note of what the device answered, and say what comes next.
    pub fn next(&mut self, reply: Reply) -> (ask: Ask)
        requires
            old(self).wf(),
        ensures
            final(self).wf(),
            (*final(self), ask) == old(self).after(reply),
    {
        let done: bool = match reply {
            Reply::Done => true,
            _ => false,
        };
        let wanted: u32 = self.request.pcm_rate;
        match self.stage {
            Stage::Hogging => {
                self.hogged = done;
                self.stage = Stage::Mixing;
                Ask::DisableMixing
            },
            Stage::Mixing => {
                self.mixing_disabled = done;
                self.stage = Stage::Rating;
                Ask::SetRate
            },
            Stage::Rating => {
                self.stage = Stage::Formatting;
                Ask::SetFormat
            },
            Stage::Formatting => if done {
                self.stage = Stage::Settling;
                Ask::AwaitFormat
            } else {
                let bits: u32 = self.physical.bits;
                self.fail(SetupError::Rejected { rate: wanted, bits })
            },
            Stage::Settling => if done {
                self.stage = Stage::Reading;
                Ask::ReadBuffers
            } else {
                self.fail(SetupError::NotSettled { rate: wanted })
            },
            Stage::Reading => match reply {
                Reply::Buffers { format, rate } => {
                    self.buffers = format;
                    self.rate = rate;
                    if wants_integer(&self.physical, &format, self.request.exclusive) {
                        self.stage = Stage::Asking;
                        Ask::AskInteger
                    } else {
                        self.judge()
                    }
                },
                _ => self.fail(SetupError::NoBuffers),
            },
            Stage::Asking => if done {
                self.stage = Stage::Rereading;
                Ask::ReadBuffers
            } else {
                self.judge()
            },
            Stage::Rereading => match reply {
                Reply::Buffers { format, rate } => {
                    self.buffers = format;
                    self.rate = rate;
                    self.judge()
                },
                _ => self.fail(SetupError::NoBuffers),
            },
            Stage::Sizing => if done {
                self.stage = Stage::Over;
                Ask::Ready
            } else {
                let frames: u32 = match self.request.buffer_frames {
                    Some(frames) => frames,
                    None => 0,
                };
                self.fail(SetupError::BufferSize { frames })
            },
            Stage::Over => Ask::Ready,
            Stage::Failed(error) => Ask::Fail(error),
        }
    }

    /// What to put back once the device is no longer wanted, or could not be set up.
    pub fn undo(&self) -> (steps: Vec<Restore>)
        ensures
            steps@ == self.undone(),
    {
        let mut steps: Vec<Restore> = Vec::new();
        steps.push(Restore::Format);
        steps.push(Restore::Rate);
        if self.mixing_disabled {
            steps.push(Restore::Mixing);
        }
        if self.hogged {
            steps.push(Restore::Exclusive);
            steps.push(Restore::SystemOutput);
        }
        assert(steps@ =~= self.undone());
        steps
    }
}

/// A format whose samples are integers.
pub open spec fn is_integer(format: StreamFormat) -> bool {
    Encoding::of_format(format) matches Ok(encoding) && encoding is Signed
}

/// A device is only ever played to at the rate the recording wants, in a layout that carries
/// every word of it: setting it up never ends well on any other.
pub proof fn a_device_is_ready_only_on_its_rate(setup: Setup, reply: Reply)
    requires
        setup.wf(),
        setup.after(reply).1 == Ask::Ready,
    ensures
        setup.after(reply).0.settled(),
{
}

/// Once a device could not be set up, it never is, whatever else is answered, and the reason
/// stays the first.
pub proof fn a_failure_stays(setup: Setup, reply: Reply, later: Reply)
    requires
        setup.after(reply).1 is Fail,
    ensures
        setup.after(reply).0.after(later) == setup.after(reply),
{
}

/// What is put back is what was changed: the mixer where it was switched off, the claim where
/// it was made, along with the system's output device that the claim moved, and the format and
/// the rate whatever happened.
pub proof fn what_was_changed_is_put_back(setup: Setup)
    ensures
        setup.undone().contains(Restore::Format),
        setup.undone().contains(Restore::Rate),
        setup.undone().contains(Restore::Mixing) <==> setup.mixing_disabled,
        setup.undone().contains(Restore::Exclusive) <==> setup.hogged,
        setup.undone().contains(Restore::SystemOutput) <==> setup.hogged,
{
    let steps = setup.undone();
    assert(steps[0] == Restore::Format && steps[1] == Restore::Rate);
    if setup.mixing_disabled {
        assert(steps[2] == Restore::Mixing);
    }
    if setup.hogged {
        assert(steps[steps.len() - 2] == Restore::Exclusive);
        assert(steps[steps.len() - 1] == Restore::SystemOutput);
    }
}

/// A device that was claimed is set up step by step: the mixer is kept out, the rate and then the
/// format are set, the format is waited for, and the buffers are read. Whether the claim, the
/// mixer or the rate was refused makes no difference to what comes next, only to what is put
/// back; a format that is refused, or does not settle, is the end of it.
pub proof fn a_device_is_set_up_step_by_step(
    setup: Setup,
    claim: Reply,
    mixer: Reply,
    rate: Reply,
    format: Reply,
    settle: Reply,
)
    requires
        setup.stage == Stage::Hogging,
    ensures
        ({
            let one = setup.after(claim);
            let two = one.0.after(mixer);
            let three = two.0.after(rate);
            let four = three.0.after(format);
            let five = four.0.after(settle);
            &&& one.1 == Ask::DisableMixing
            &&& two.1 == Ask::SetRate
            &&& three.1 == Ask::SetFormat
            &&& three.0.hogged == (claim == Reply::Done)
            &&& three.0.mixing_disabled == (mixer == Reply::Done)
            &&& format == Reply::Done ==> four.1 == Ask::AwaitFormat
            &&& format != Reply::Done ==> four.1 == Ask::Fail(
                SetupError::Rejected { rate: setup.request.pcm_rate, bits: setup.physical.bits },
            )
            &&& format == Reply::Done && settle == Reply::Done ==> five.1 == Ask::ReadBuffers
            &&& format == Reply::Done && settle != Reply::Done ==> five.1 == Ask::Fail(
                SetupError::NotSettled { rate: setup.request.pcm_rate },
            )
        }),
{
}

/// A device whose buffers show the rate, in a layout that carries the words, is ready once its
/// buffers have the size that was asked for, and at once where none was. One whose own samples
/// are integers is first asked for buffers of them, where it was claimed, and refusing that is
/// no failure.
pub proof fn a_device_on_its_rate_becomes_ready(
    setup: Setup,
    format: StreamFormat,
    encoding: Encoding,
    frames: u32,
)
    requires
        setup.stage == Stage::Reading,
        Encoding::of_format(format) == Ok::<Encoding, EncodingError>(encoding),
    ensures
        ({
            let seen = Reply::Buffers { format, rate: Some(setup.request.pcm_rate) };
            let read = setup.after(seen);
            let asks = setup.request.exclusive && is_integer(setup.physical) && !is_integer(format);
            let settled = if asks {
                read.0.after(Reply::Refused)
            } else {
                read
            };
            &&& asks ==> read.1 == Ask::AskInteger && read.0.after(Reply::Done).1
                == Ask::ReadBuffers
            &&& setup.request.buffer_frames is None ==> settled.1 == Ask::Ready
            &&& setup.request.buffer_frames == Some(frames) ==> settled.1 == Ask::SetBufferFrames(
                frames,
            ) && settled.0.after(Reply::Done).1 == Ask::Ready && settled.0.after(Reply::Refused).1
                == Ask::Fail(SetupError::BufferSize { frames })
            &&& settled.0.encoding == encoding
            &&& settled.0.buffers == format
        }),
{
}

/// A device whose buffers do not show the rate is never ready.
pub proof fn a_device_off_its_rate_fails(setup: Setup, format: StreamFormat, rate: Option<u32>)
    requires
        setup.stage == Stage::Rereading || setup.stage == Stage::Reading
            && !setup.request.exclusive,
        rate != Some(setup.request.pcm_rate),
    ensures
        setup.after(Reply::Buffers { format, rate }).1 == Ask::Fail(
            SetupError::OffRate { rate: setup.request.pcm_rate },
        ),
{
}

} // verus!
