//! How words are laid out in a device's buffer, and how a device is chosen and taken over.

use dsd_rust::dop::{word, MARKER_A, MARKER_B};
use dsd_rust::output::encoding::{
    is_native_dsd, Carrier, Encoding, EncodingError, StreamFormat, FLAG_ALIGNED_HIGH,
    FLAG_BIG_ENDIAN, FLAG_FLOAT, FLAG_NON_MIXABLE, FLAG_SIGNED_INTEGER, LINEAR_PCM,
};
use dsd_rust::output::hal::status_text;
use dsd_rust::output::setup::{on_rate, Ask, Reply, Restore, Setup, SetupError};
use dsd_rust::output::stream::{
    choose_format, no_format_text, ready_frames, supported_dop_rates, RangedFormat, Request,
};
use dsd_rust::output::{find_device, DeviceName};

const FLAG_PACKED: u32 = 0x08;

fn format(flags: u32, bits: u32, bytes_per_frame: u32) -> StreamFormat {
    StreamFormat {
        format_id: LINEAR_PCM,
        flags,
        bytes_per_frame,
        channels: 2,
        bits,
    }
}

#[test]
fn packed_24_bit_little_endian_carries_the_marker_in_the_top_byte() {
    let encoding =
        Encoding::from_format(&format(FLAG_SIGNED_INTEGER | FLAG_PACKED, 24, 6)).expect("supported");
    let mut out = [0_u8; 3];

    encoding.write(word(MARKER_B, 0xABCD), &mut out);

    assert_eq!(
        encoding,
        Encoding::Signed {
            bytes: 3,
            shift: 0,
            big_endian: false
        }
    );
    assert_eq!(out, [0xCD, 0xAB, 0xFA]);
}

#[test]
fn packed_24_bit_big_endian_keeps_the_marker_first() {
    let flags = FLAG_SIGNED_INTEGER | FLAG_BIG_ENDIAN;
    let encoding = Encoding::from_format(&format(flags, 24, 6)).expect("supported");
    let mut out = [0_u8; 3];

    encoding.write(word(MARKER_A, 0xABCD), &mut out);

    assert_eq!(out, [0x05, 0xAB, 0xCD]);
}

#[test]
fn high_aligned_24_in_32_leaves_the_low_byte_empty() {
    let flags = FLAG_SIGNED_INTEGER | FLAG_ALIGNED_HIGH;
    let encoding = Encoding::from_format(&format(flags, 24, 8)).expect("supported");
    let mut out = [0_u8; 4];

    encoding.write(word(MARKER_A, 0xABCD), &mut out);

    assert_eq!(out, [0x00, 0xCD, 0xAB, 0x05]);
}

#[test]
fn low_aligned_24_in_32_sign_extends_the_negative_marker() {
    let encoding = Encoding::from_format(&format(FLAG_SIGNED_INTEGER, 24, 8)).expect("supported");
    let mut out = [0_u8; 4];

    encoding.write(word(MARKER_B, 0x0000), &mut out);

    assert_eq!(i32::from_le_bytes(out), word(MARKER_B, 0x0000));
}

#[test]
fn float32_encodes_the_word_exactly() {
    let encoding = Encoding::from_format(&format(FLAG_FLOAT, 32, 8)).expect("supported");
    let mut out = [0_u8; 4];

    encoding.write(word(MARKER_A, 0x1234), &mut out);

    let decoded = f32::from_le_bytes(out) * 8_388_608.0;
    assert_eq!(decoded as i32, word(MARKER_A, 0x1234));
    assert!(!encoding.is_integer());
}

#[test]
fn sixteen_bit_streams_are_rejected() {
    let error =
        Encoding::from_format(&format(FLAG_SIGNED_INTEGER, 16, 4)).expect_err("rejected");

    assert!(
        error.message().contains("at least 24 bits"),
        "{}",
        error.message()
    );
}

#[test]
fn every_other_kind_of_stream_is_refused_with_its_reason() {
    let mut compressed = format(FLAG_SIGNED_INTEGER, 24, 6);
    compressed.format_id = 1;
    assert_eq!(
        Encoding::from_format(&compressed),
        Err(EncodingError::NotPcm)
    );
    assert_eq!(
        Encoding::from_format(&format(0, 24, 6)),
        Err(EncodingError::Unsigned)
    );
    assert_eq!(
        Encoding::from_format(&format(FLAG_FLOAT, 64, 16)),
        Err(EncodingError::Float { bits: 64, bytes: 8 })
    );
    assert_eq!(
        Encoding::from_format(&format(FLAG_SIGNED_INTEGER, 24, 10)),
        Err(EncodingError::Layout { bits: 24, bytes: 5 })
    );
}

#[test]
fn a_full_width_big_endian_non_mixable_stream_is_native_dsd() {
    let flags = FLAG_SIGNED_INTEGER | FLAG_BIG_ENDIAN | FLAG_NON_MIXABLE;

    assert!(is_native_dsd(&format(flags, 32, 8)));
    assert!(!is_native_dsd(&format(FLAG_SIGNED_INTEGER, 32, 8)));
}

#[test]
fn carriers_name_themselves_and_their_width() {
    assert_eq!(Carrier::Dop.label(), "DoP");
    assert_eq!(Carrier::NativeDsd.label(), "native DSD");
    assert_eq!(Carrier::Dop.payloads_per_frame(), 1);
    assert_eq!(Carrier::NativeDsd.payloads_per_frame(), 2);
}

fn offered(format: StreamFormat, rate: u32) -> RangedFormat {
    RangedFormat {
        format,
        rate: Some(rate),
        lowest: rate,
        highest: rate,
    }
}

#[test]
fn the_best_format_at_the_rate_is_chosen_and_none_at_any_other() {
    let float = format(FLAG_FLOAT, 32, 8);
    let packed = format(FLAG_SIGNED_INTEGER | FLAG_PACKED, 24, 6);
    let streams = vec![vec![
        offered(float, 176_400),
        offered(packed, 176_400),
        offered(packed, 44_100),
    ]];

    assert_eq!(choose_format(&streams, 176_400, false, 2), Some((0, 1)));
    assert_eq!(choose_format(&streams, 44_100, false, 2), Some((0, 2)));
    assert_eq!(choose_format(&streams, 352_800, false, 2), None);
    assert_eq!(choose_format(&streams, 352_800, true, 2), Some((0, 1)));
    assert_eq!(choose_format(&streams, 176_400, false, 4), None);
    assert_eq!(
        no_format_text(352_800, 2),
        "device has no 352800 Hz, 2 channel, 24 bit or better output format"
    );
    assert_eq!(supported_dop_rates(&streams), [176_400]);
}

fn request(exclusive: bool, buffer_frames: Option<u32>) -> Request {
    Request {
        pcm_rate: 176_400,
        channels: 2,
        carrier: Carrier::Dop,
        exclusive,
        buffer_frames,
        allow_unadvertised_rate: false,
    }
}

#[test]
fn an_exclusive_device_is_claimed_switched_and_asked_for_its_own_samples() {
    let packed = format(FLAG_SIGNED_INTEGER | FLAG_PACKED, 24, 6);
    let float = format(FLAG_FLOAT, 32, 8);
    let (mut setup, ask) = Setup::begin(request(true, Some(512)), packed);

    assert_eq!(ask, Ask::Hog);
    assert_eq!(setup.next(Reply::Done), Ask::DisableMixing);
    assert_eq!(setup.next(Reply::Done), Ask::SetRate);
    assert_eq!(setup.next(Reply::Refused), Ask::SetFormat);
    assert_eq!(setup.next(Reply::Done), Ask::AwaitFormat);
    assert_eq!(setup.next(Reply::Done), Ask::ReadBuffers);
    let buffers = Reply::Buffers {
        format: float,
        rate: Some(176_400),
    };
    assert_eq!(setup.next(buffers), Ask::AskInteger);
    assert_eq!(setup.next(Reply::Done), Ask::ReadBuffers);
    let buffers = Reply::Buffers {
        format: packed,
        rate: Some(176_400),
    };
    assert_eq!(setup.next(buffers), Ask::SetBufferFrames(512));
    assert_eq!(setup.next(Reply::Done), Ask::Ready);
    assert!(setup.encoding.is_integer());
    assert_eq!(
        setup.undo(),
        [
            Restore::Format,
            Restore::Rate,
            Restore::Mixing,
            Restore::Exclusive,
            Restore::SystemOutput
        ]
    );
}

#[test]
fn a_device_that_settles_on_another_rate_is_refused_rather_than_played_to() {
    let packed = format(FLAG_SIGNED_INTEGER | FLAG_PACKED, 24, 6);
    let (mut setup, ask) = Setup::begin(request(false, None), packed);

    assert_eq!(ask, Ask::SetRate);
    assert_eq!(setup.next(Reply::Done), Ask::SetFormat);
    assert_eq!(setup.next(Reply::Done), Ask::AwaitFormat);
    assert_eq!(setup.next(Reply::Done), Ask::ReadBuffers);
    let error = SetupError::OffRate { rate: 176_400 };
    let buffers = Reply::Buffers {
        format: packed,
        rate: Some(48_000),
    };
    assert_eq!(setup.next(buffers), Ask::Fail(error));
    assert_eq!(
        error.message("48000"),
        "device settled on 48000 Hz instead of 176400 Hz"
    );
    assert_eq!(setup.undo(), [Restore::Format, Restore::Rate]);
    assert!(error.is_busy());
    assert!(!SetupError::NoBuffers.is_busy());
    assert!(!on_rate(None, 176_400));
}

#[test]
fn a_device_that_could_not_be_set_up_stays_so_whatever_it_answers() {
    let packed = format(FLAG_SIGNED_INTEGER | FLAG_PACKED, 24, 6);
    let (mut setup, _) = Setup::begin(request(false, None), packed);
    setup.next(Reply::Done);
    let error = SetupError::Rejected {
        rate: 176_400,
        bits: 24,
    };

    assert_eq!(setup.next(Reply::Refused), Ask::Fail(error));

    assert_eq!(setup.next(Reply::Done), Ask::Fail(error));
    assert_eq!(setup.next(Reply::Refused), Ask::Fail(error));
}

#[test]
fn a_device_that_rejects_or_never_reaches_the_format_says_so() {
    let packed = format(FLAG_SIGNED_INTEGER | FLAG_PACKED, 24, 6);
    let (mut setup, _) = Setup::begin(request(false, None), packed);
    setup.next(Reply::Done);
    let rejected = SetupError::Rejected {
        rate: 176_400,
        bits: 24,
    };
    assert_eq!(setup.next(Reply::Refused), Ask::Fail(rejected));
    assert_eq!(rejected.message(""), "device rejected 176400 Hz 24 bit");

    let (mut setup, _) = Setup::begin(request(false, None), packed);
    setup.next(Reply::Done);
    setup.next(Reply::Done);
    let late = SetupError::NotSettled { rate: 176_400 };
    assert_eq!(setup.next(Reply::Refused), Ask::Fail(late));
    assert_eq!(
        late.message(""),
        "device did not switch to 176400 Hz within 3 s"
    );
}

#[test]
fn a_device_is_found_by_a_fragment_of_its_name_or_by_its_uid() {
    let devices = vec![
        DeviceName {
            name: "MacBook Pro Speakers".to_owned(),
            uid: "BuiltIn".to_owned(),
        },
        DeviceName {
            name: "Topping D50".to_owned(),
            uid: "usb-1".to_owned(),
        },
    ];

    assert_eq!(find_device("d50", &devices), Ok(1));
    assert_eq!(find_device("usb-1", &devices), Ok(1));
    let missing = find_device("RU7", &devices).expect_err("not there");
    assert!(missing
        .message()
        .contains("MacBook Pro Speakers, Topping D50"));
}

#[test]
fn a_device_that_is_not_there_is_named_in_quotes_that_can_be_read_back() {
    let plain = find_device("RU7", &Vec::new()).expect_err("not there");
    let odd = find_device("D\"50\\\n", &Vec::new()).expect_err("not there");

    assert!(plain
        .message()
        .starts_with("no output device matches \"RU7\"; available: "));
    assert!(odd
        .message()
        .starts_with("no output device matches \"D\\\"50\\\\\\n\"; available: "));
}

#[test]
fn a_status_of_four_letters_is_shown_as_them() {
    assert!(status_text(0x7768_6F3F).contains("who?"));
    assert!(status_text(-50).contains("-50"));
}

#[test]
fn as_many_whole_frames_leave_the_queue_as_are_queued_and_fit() {
    assert_eq!(ready_frames(false, 7, 2, 10), 3);
    assert_eq!(ready_frames(false, 40, 2, 10), 10);
    assert_eq!(ready_frames(false, 1, 2, 10), 0);
    assert_eq!(ready_frames(true, 40, 2, 10), 0);
}
