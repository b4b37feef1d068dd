//! Finding the native DSD path in a UAC2 configuration descriptor.
//!
//! A DAC that plays native DSD advertises an extra alternate setting on its audio streaming
//! interface whose format is `RAW_DATA` rather than PCM. Core Audio ignores that setting
//! because it is not PCM, which is exactly why the rate is unreachable through the HAL.

use crate::bytes;
use crate::dsd::DsdFormat;
use crate::text;
use vstd::prelude::*;

verus! {

/// Class-specific interface descriptor.
pub const CS_INTERFACE: u8 = 0x24;

pub const DESC_INTERFACE: u8 = 0x04;

pub const DESC_ENDPOINT: u8 = 0x05;

pub const AUDIO_CLASS: u8 = 0x01;

pub const SUBCLASS_CONTROL: u8 = 0x01;

pub const SUBCLASS_STREAMING: u8 = 0x02;

pub const AC_CLOCK_SOURCE: u8 = 0x0A;

pub const AS_GENERAL: u8 = 0x01;

pub const AS_FORMAT_TYPE: u8 = 0x02;

/// Native DSD packs 32 DSD bits per channel per frame.
pub const NATIVE_SUBSLOT_BYTES: u8 = 4;

/// Endpoint transfer type field of `bmAttributes`.
pub const TRANSFER_ISOCHRONOUS: u8 = 0x01;

/// Everything needed to drive one DAC's native DSD path.
#[derive(Debug, Clone, Copy, PartialEq, Eq, Structural)]
pub struct NativeDsd {
    pub control_interface: u8,
    pub streaming_interface: u8,
    pub alt_setting: u8,
    pub clock_id: u8,
    pub out_endpoint: u8,
    pub feedback_endpoint: Option<u8>,
    pub max_packet: u16,
}

/// Why a DAC cannot play a recording natively.
#[derive(Debug, Clone, Copy, PartialEq, Eq, Structural)]
pub struct TooFast {
    pub rate: u32,
    pub highest: u32,
}

impl TooFast {
    /// What went wrong, in a line.
    pub fn message(self) -> (line: String)
        ensures
            line@ == "its native DSD endpoint carries up to "@ + text::decimal(self.highest as nat)
                + " bits per second per channel, not "@ + text::decimal(self.rate as nat),
    {
        let mut line: String = text::with_number(
            "its native DSD endpoint carries up to ",
            self.highest as u64,
        );
        line.append(" bits per second per channel, not ");
        line.append(text::decimal_of(self.rate as u64).as_str());
        line
    }
}

impl NativeDsd {
    /// Largest DSD rate this endpoint can carry, in bits per second per channel: 8000
    /// microframes per second, of as many whole frames as a packet holds.
    pub open spec fn ceiling(self, channels: int) -> int {
        self.max_packet as int / channels / 4 * 32 * 8000
    }

    /// Largest DSD rate this endpoint can carry, in bits per second per channel.
    pub fn max_dsd_rate(self, channels: u32) -> (rate: u32)
        requires
            channels > 0,
        ensures
            rate == self.ceiling(channels as int),
    {
        assert(0 <= self.max_packet as u32 / channels <= self.max_packet) by (nonlinear_arith)
            requires
                channels > 0,
        ;
        // 8000 microframes per second, 8 DSD bits per byte.
        (self.max_packet as u32 / channels / NATIVE_SUBSLOT_BYTES as u32) * 32 * 8000
    }

    /// Whether the endpoint has room for a recording's rate.
    pub fn accepts(self, format: DsdFormat) -> (out: Result<(), TooFast>)
        requires
            format.channels > 0,
        ensures
            out == (if format.rate.0 <= self.ceiling(format.channels as int) {
                Ok::<(), TooFast>(())
            } else {
                Err::<(), TooFast>(
                    TooFast {
                        rate: format.rate.0,
                        highest: self.ceiling(format.channels as int) as u32,
                    },
                )
            }),
    {
        let highest: u32 = self.max_dsd_rate(format.channels as u32);
        if format.rate.hz() <= highest {
            Ok(())
        } else {
            Err(TooFast { rate: format.rate.hz(), highest })
        }
    }
}

/// Why a DAC has no native DSD path.
#[derive(Debug, Clone, Copy, PartialEq, Eq, Structural)]
pub enum DescriptorError {
    NoRawData,
    NoControl,
    NoClock,
}

impl DescriptorError {
    /// What is missing, in a line.
    pub open spec fn line(self) -> Seq<char> {
        match self {
            DescriptorError::NoRawData =>
                "device advertises no native DSD alternate setting (no RAW_DATA format)"@,
            DescriptorError::NoControl =>
                "device has no audio control interface to set the sample clock on"@,
            DescriptorError::NoClock =>
                "device has no clock source, so its sample rate cannot be set"@,
        }
    }

    /// What is missing, in a line.
    pub fn message(self) -> (line: String)
        ensures
            line@ == self.line(),
    {
        match self {
            DescriptorError::NoRawData => text::owned(
                "device advertises no native DSD alternate setting (no RAW_DATA format)",
            ),
            DescriptorError::NoControl => text::owned(
                "device has no audio control interface to set the sample clock on",
            ),
            DescriptorError::NoClock => text::owned(
                "device has no clock source, so its sample rate cannot be set",
            ),
        }
    }
}

/// What an interface descriptor says about itself, less the fields we never read.
#[derive(Debug, Clone, Copy, PartialEq, Eq, Structural)]
pub struct Interface {
    pub number: u8,
    pub alt_setting: u8,
    pub class: u8,
    pub subclass: u8,
}

impl Interface {
    /// bInterfaceNumber, bAlternateSetting, bNumEndpoints, bInterfaceClass, bInterfaceSubClass.
    pub open spec fn described(body: Seq<u8>) -> Option<Interface> {
        if body.len() < 5 {
            None
        } else {
            Some(
                Interface {
                    number: body[0],
                    alt_setting: body[1],
                    class: body[3],
                    subclass: body[4],
                },
            )
        }
    }

    fn parse(body: &[u8]) -> (out: Option<Self>)
        ensures
            out == Interface::described(body@),
    {
        if body.len() < 5 {
            return None;
        }
        Some(
            Interface { number: body[0], alt_setting: body[1], class: body[3], subclass: body[4] },
        )
    }

    pub open spec fn controls(self) -> bool {
        self.class == AUDIO_CLASS && self.subclass == SUBCLASS_CONTROL
    }

    pub open spec fn streams(self) -> bool {
        self.class == AUDIO_CLASS && self.subclass == SUBCLASS_STREAMING
    }

    fn is_audio_control(self) -> (yes: bool)
        ensures
            yes == self.controls(),
    {
        self.class == AUDIO_CLASS && self.subclass == SUBCLASS_CONTROL
    }

    fn is_audio_streaming(self) -> (yes: bool)
        ensures
            yes == self.streams(),
    {
        self.class == AUDIO_CLASS && self.subclass == SUBCLASS_STREAMING
    }
}

/// An alternate setting that carries raw DSD, once its format descriptors agree.
#[derive(Debug, Clone, Copy, PartialEq, Eq, Structural)]
pub struct Candidate {
    pub interface: u8,
    pub alt_setting: u8,
    pub raw_data: bool,
    pub subslot_bytes: u8,
    pub out_endpoint: Option<u8>,
    pub feedback_endpoint: Option<u8>,
    pub max_packet: u16,
}

impl Candidate {
    /// Nothing known yet.
    pub open spec fn nothing() -> Candidate {
        Candidate {
            interface: 0,
            alt_setting: 0,
            raw_data: false,
            subslot_bytes: 0,
            out_endpoint: None,
            feedback_endpoint: None,
            max_packet: 0,
        }
    }

    fn blank() -> (candidate: Self)
        ensures
            candidate == Candidate::nothing(),
    {
        Candidate {
            interface: 0,
            alt_setting: 0,
            raw_data: false,
            subslot_bytes: 0,
            out_endpoint: None,
            feedback_endpoint: None,
            max_packet: 0,
        }
    }

    pub open spec fn native(self) -> bool {
        self.raw_data && self.subslot_bytes == NATIVE_SUBSLOT_BYTES && self.out_endpoint is Some
    }

    fn is_native_dsd(&self) -> (yes: bool)
        ensures
            yes == self.native(),
    {
        self.raw_data && self.subslot_bytes == NATIVE_SUBSLOT_BYTES && self.out_endpoint.is_some()
    }

    /// What a streaming interface's own descriptor adds. One too short to hold the field being
    /// read leaves the candidate as it was rather than guessing at a truncated format.
    pub open spec fn told(self, subtype: u8, fields: Seq<u8>) -> Candidate {
        // bTerminalLink, bmControls, bFormatType, bmFormats(4): bit 31 is RAW_DATA.
        if subtype == AS_GENERAL && fields.len() >= 7 {
            Candidate { raw_data: fields[6] >= 128, ..self }
        } else if subtype == AS_FORMAT_TYPE && fields.len() >= 2 {
            // bFormatType, bSubslotSize, bBitResolution
            Candidate { subslot_bytes: fields[1], ..self }
        } else {
            self
        }
    }

    /// What an endpoint descriptor adds: bEndpointAddress, bmAttributes, wMaxPacketSize(2).
    pub open spec fn endpoint(self, body: Seq<u8>) -> Candidate {
        if body.len() < 4 || body[1] % 4 != TRANSFER_ISOCHRONOUS {
            self
        } else if body[0] < 128 {
            Candidate {
                out_endpoint: Some(body[0]),
                max_packet: bytes::le16(body, 2) as u16,
                ..self
            }
        } else {
            Candidate { feedback_endpoint: Some(body[0]), ..self }
        }
    }
}

/// What the descriptors read so far have shown.
#[derive(Debug, Clone, Copy, PartialEq, Eq, Structural)]
pub struct Search {
    pub control_interface: Option<u8>,
    /// The first clock whose frequency the host can set, and the first clock of all.
    pub clock_id: Option<u8>,
    pub clock_fallback: Option<u8>,
    pub current: Option<Interface>,
    pub candidate: Candidate,
    /// The first candidate that was native DSD when the next interface began.
    pub found: Option<Candidate>,
}

/// The first of two values that is there.
pub open spec fn first_of(known: Option<u8>, value: u8) -> Option<u8> {
    match known {
        Some(_) => known,
        None => Some(value),
    }
}

impl Search {
    /// Nothing read yet.
    pub open spec fn start() -> Search {
        Search {
            control_interface: None,
            clock_id: None,
            clock_fallback: None,
            current: None,
            candidate: Candidate::nothing(),
            found: None,
        }
    }

    /// The candidate at hand is settled.
    pub open spec fn settled(self) -> Search {
        if self.candidate.native() && self.found is None {
            Search { found: Some(self.candidate), ..self }
        } else {
            self
        }
    }

    /// After an interface descriptor.
    pub open spec fn interface(self, body: Seq<u8>) -> Search {
        let next = Search {
            current: Interface::described(body),
            candidate: Candidate::nothing(),
            ..self.settled()
        };
        match Interface::described(body) {
            Some(interface) => Search {
                control_interface: if interface.controls() {
                    Some(interface.number)
                } else {
                    next.control_interface
                },
                candidate: Candidate {
                    interface: interface.number,
                    alt_setting: interface.alt_setting,
                    ..Candidate::nothing()
                },
                ..next
            },
            None => next,
        }
    }

    /// After a class-specific descriptor of the interface at hand.
    pub open spec fn class_specific(self, body: Seq<u8>) -> Search {
        match self.current {
            Some(interface) => if body.len() == 0 {
                self
            } else {
                let fields = body.skip(1);
                if interface.controls() && body[0] == AC_CLOCK_SOURCE {
                    // bClockID, bmAttributes, bmControls: both the frequency control and its
                    // range must be host programmable.
                    if fields.len() >= 3 {
                        Search {
                            clock_fallback: first_of(self.clock_fallback, fields[0]),
                            clock_id: if fields[2] % 4 == 3 {
                                first_of(self.clock_id, fields[0])
                            } else {
                                self.clock_id
                            },
                            ..self
                        }
                    } else {
                        self
                    }
                } else if interface.streams() {
                    Search { candidate: self.candidate.told(body[0], fields), ..self }
                } else {
                    self
                }
            },
            None => self,
        }
    }

    /// After one descriptor.
    pub open spec fn read(self, kind: u8, body: Seq<u8>) -> Search {
        if kind == DESC_INTERFACE {
            self.interface(body)
        } else if kind == CS_INTERFACE {
            self.class_specific(body)
        } else if kind == DESC_ENDPOINT {
            Search { candidate: self.candidate.endpoint(body), ..self }
        } else {
            self
        }
    }
}

/// What the descriptors from `offset` on show, each of them a length, a kind and a body. The
/// walk stops at the first malformed length rather than guessing, so a truncated blob cannot
/// be read past its end.
pub open spec fn walked(config: Seq<u8>, offset: int, search: Search) -> Search
    decreases config.len() - offset,
{
    let length = config[offset] as int;
    if offset < 0 || offset + 2 > config.len() || length < 2 || offset + length > config.len() {
        search
    } else {
        walked(
            config,
            offset + length,
            search.read(config[offset + 1], config.subrange(offset + 2, offset + length)),
        )
    }
}

/// The native DSD path a configuration descriptor shows, or what is missing from it.
pub open spec fn native_path(config: Seq<u8>) -> Result<NativeDsd, DescriptorError> {
    let search = walked(config, 0, Search::start()).settled();
    match search.found {
        None => Err(DescriptorError::NoRawData),
        Some(found) => match search.control_interface {
            None => Err(DescriptorError::NoControl),
            Some(control_interface) => {
                let clock = match search.clock_id {
                    Some(_) => search.clock_id,
                    None => search.clock_fallback,
                };
                match clock {
                    None => Err(DescriptorError::NoClock),
                    Some(clock_id) => Ok(
                        NativeDsd {
                            control_interface,
                            streaming_interface: found.interface,
                            alt_setting: found.alt_setting,
                            clock_id,
                            out_endpoint: found.out_endpoint->0,
                            feedback_endpoint: found.feedback_endpoint,
                            max_packet: found.max_packet,
                        },
                    ),
                }
            },
        },
    }
}

fn read_streaming_descriptor(subtype: u8, fields: &[u8], candidate: &mut Candidate)
    ensures
        *final(candidate) == old(candidate).told(subtype, fields@),
{
    if subtype == AS_GENERAL {
        if fields.len() >= 7 {
            candidate.raw_data = fields[6] >= 128;
        }
    } else if subtype == AS_FORMAT_TYPE {
        if fields.len() >= 2 {
            candidate.subslot_bytes = fields[1];
        }
    }
}

fn read_endpoint(body: &[u8], candidate: &mut Candidate)
    ensures
        *final(candidate) == old(candidate).endpoint(body@),
{
    if body.len() < 4 {
        return;
    }
    let address: u8 = body[0];
    if body[1] % 4 != TRANSFER_ISOCHRONOUS {
        return;
    }
    if address < 128 {
        candidate.out_endpoint = Some(address);
        candidate.max_packet = bytes::read_le16(body, 2);
    } else {
        candidate.feedback_endpoint = Some(address);
    }
}

impl Search {
    fn settle(&mut self)
        ensures
            *final(self) == old(self).settled(),
    {
        if self.candidate.is_native_dsd() && self.found.is_none() {
            self.found = Some(self.candidate);
        }
    }

    fn read_interface(&mut self, body: &[u8])
        ensures
            *final(self) == old(self).interface(body@),
    {
        self.settle();
        let interface: Option<Interface> = Interface::parse(body);
        self.candidate = Candidate::blank();
        if let Some(interface) = interface {
            if interface.is_audio_control() {
                self.control_interface = Some(interface.number);
            }
            self.candidate.interface = interface.number;
            self.candidate.alt_setting = interface.alt_setting;
        }
        self.current = interface;
    }

    fn read_class_specific(&mut self, body: &[u8])
        ensures
            *final(self) == old(self).class_specific(body@),
    {
        let interface: Interface = match self.current {
            Some(interface) => interface,
            None => {
                return;
            },
        };
        if body.len() == 0 {
            return;
        }
        let subtype: u8 = body[0];
        let fields: &[u8] = vstd::slice::slice_subrange(body, 1, body.len());
        assert(fields@ =~= body@.skip(1));
        if interface.is_audio_control() && subtype == AC_CLOCK_SOURCE {
            if fields.len() >= 3 {
                if self.clock_fallback.is_none() {
                    self.clock_fallback = Some(fields[0]);
                }
                if fields[2] % 4 == 3 {
                    if self.clock_id.is_none() {
                        self.clock_id = Some(fields[0]);
                    }
                }
            }
        } else if interface.is_audio_streaming() {
            read_streaming_descriptor(subtype, fields, &mut self.candidate);
        }
    }

    fn read_one(&mut self, kind: u8, body: &[u8])
        ensures
            *final(self) == old(self).read(kind, body@),
    {
        if kind == DESC_INTERFACE {
            self.read_interface(body);
        } else if kind == CS_INTERFACE {
            self.read_class_specific(body);
        } else if kind == DESC_ENDPOINT {
            read_endpoint(body, &mut self.candidate);
        }
    }
}

proof fn lemma_found(config: Seq<u8>, offset: int, search: Search)
    requires
        search.found matches Some(found) ==> found.native(),
    ensures
        walked(config, offset, search).found matches Some(found) ==> found.native(),
    decreases config.len() - offset,
{
    let length = config[offset] as int;
    if !(offset < 0 || offset + 2 > config.len() || length < 2 || offset + length > config.len()) {
        lemma_found(
            config,
            offset + length,
            search.read(config[offset + 1], config.subrange(offset + 2, offset + length)),
        );
    }
}

/// Locate the native DSD alternate setting and the clock that drives it.
pub fn find_native_dsd(config: &[u8]) -> (out: Result<NativeDsd, DescriptorError>)
    ensures
        out == native_path(config@),
{
    let mut search: Search = Search {
        control_interface: None,
        clock_id: None,
        clock_fallback: None,
        current: None,
        candidate: Candidate::blank(),
        found: None,
    };
    let ghost whole = walked(config@, 0, Search::start());
    proof {
        lemma_found(config@, 0, Search::start());
    }
    let len: usize = config.len();
    let mut offset: usize = 0;
    loop
        invariant_except_break
            len == config@.len(),
            offset <= len,
            whole == walked(config@, offset as int, search),
        ensures
            whole == search,
        decreases len - offset,
    {
        if len - offset < 2 {
            break;
        }
        let length: usize = config[offset] as usize;
        if length < 2 || length > len - offset {
            break;
        }
        let kind: u8 = config[offset + 1];
        let body: &[u8] = vstd::slice::slice_subrange(config, offset + 2, offset + length);
        search.read_one(kind, body);
        offset = offset + length;
    }
    search.settle();
    let found: Candidate = match search.found {
        Some(found) => found,
        None => {
            return Err(DescriptorError::NoRawData);
        },
    };
    let control_interface: u8 = match search.control_interface {
        Some(control_interface) => control_interface,
        None => {
            return Err(DescriptorError::NoControl);
        },
    };
    let clock: Option<u8> = match search.clock_id {
        Some(_) => search.clock_id,
        None => search.clock_fallback,
    };
    let clock_id: u8 = match clock {
        Some(clock_id) => clock_id,
        None => {
            return Err(DescriptorError::NoClock);
        },
    };
    let out_endpoint: u8 = match found.out_endpoint {
        Some(out_endpoint) => out_endpoint,
        None => {
            return Err(DescriptorError::NoRawData);
        },
    };
    Ok(
        NativeDsd {
            control_interface,
            streaming_interface: found.interface,
            alt_setting: found.alt_setting,
            clock_id,
            out_endpoint,
            feedback_endpoint: found.feedback_endpoint,
            max_packet: found.max_packet,
        },
    )
}

} // verus!
