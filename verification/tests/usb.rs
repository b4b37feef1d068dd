//! The native USB path: descriptors, clock ranges, claims and pacing.

use dsd_rust::dsd::{DsdFormat, DsdRate};
use dsd_rust::output::queue::{fits, offer_bytes, offer_samples};
use dsd_rust::output::stream::PlaybackState;
use dsd_rust::output::usb::descriptors::{find_native_dsd, NativeDsd};
use dsd_rust::output::usb::device::{
    names_match, parse_clock_ranges, ClaimAction, ClaimEvent, Claiming, Dac, Held,
};
use dsd_rust::output::usb::session::{capacity, find_dac, NativeInfo};
use dsd_rust::output::usb::stream::{
    feedback_value, listens_on, on_complete, on_submit, packets_hold, resynced, tolerable,
    Completion, Engine, Pacer, Submission, UNDERRUN,
};
use rtrb::RingBuffer;

fn interface(number: u8, alt: u8, endpoints: u8, subclass: u8) -> Vec<u8> {
    vec![9, 0x04, number, alt, endpoints, 0x01, subclass, 0x20, 0]
}

fn endpoint(address: u8, attributes: u8, max_packet: u16) -> Vec<u8> {
    let [lo, hi] = max_packet.to_le_bytes();
    vec![7, 0x05, address, attributes, lo, hi, 1]
}

/// The Cayin RU7's real configuration descriptor, transcribed from its USB descriptors:
/// four PCM alternate settings and one RAW_DATA setting for native DSD.
fn ru7() -> Vec<u8> {
    let mut config = vec![9, 0x02, 0, 0, 2, 1, 0, 0x80, 50];

    config.extend(interface(0, 0, 0, 0x01));
    // Audio control: header, clock source (ID 5, host programmable), terminals.
    config.extend([9, 0x24, 0x01, 0x00, 0x02, 0x04, 0x40, 0x00, 0x00]);
    config.extend([8, 0x24, 0x0A, 0x05, 0x03, 0x07, 0x00, 0x00]);
    config.extend([
        17, 0x24, 0x02, 0x01, 0x01, 0x01, 0x00, 0x05, 0x02, 0x03, 0x00, 0x00, 0x00, 0x00, 0x00,
        0x00, 0x00,
    ]);

    config.extend(interface(1, 0, 0, 0x02));
    for (alt, subslot, bits) in [(1_u8, 2_u8, 16_u8), (2, 3, 24), (3, 4, 32)] {
        config.extend(interface(1, alt, 2, 0x02));
        config.extend([
            16, 0x24, 0x01, 0x01, 0x05, 0x01, 0x01, 0x00, 0x00, 0x00, 0x02, 0x03, 0x00, 0x00, 0x00,
            0x00,
        ]);
        config.extend([6, 0x24, 0x02, 0x01, subslot, bits]);
        config.extend(endpoint(0x01, 0x05, 776));
        config.extend(endpoint(0x81, 0x11, 4));
    }
    // Alt 4: bmFormats = 0x80000000, RAW_DATA.
    config.extend(interface(1, 4, 2, 0x02));
    config.extend([
        16, 0x24, 0x01, 0x01, 0x05, 0x01, 0x00, 0x00, 0x00, 0x80, 0x02, 0x03, 0x00, 0x00, 0x00,
        0x00,
    ]);
    config.extend([6, 0x24, 0x02, 0x01, 0x04, 0x20]);
    config.extend(endpoint(0x01, 0x05, 776));
    config.extend(endpoint(0x81, 0x11, 4));
    config
}

#[test]
fn the_ru7_native_dsd_path_is_found() {
    let found = find_native_dsd(&ru7()).expect("RU7 advertises native DSD");

    assert_eq!(
        found,
        NativeDsd {
            control_interface: 0,
            streaming_interface: 1,
            alt_setting: 4,
            clock_id: 5,
            out_endpoint: 0x01,
            feedback_endpoint: Some(0x81),
            max_packet: 776,
        }
    );
}

#[test]
fn the_ru7_endpoint_has_room_for_dsd256_but_not_dsd1024() {
    let found = find_native_dsd(&ru7()).expect("RU7 advertises native DSD");

    // 776 bytes per microframe over two channels is 97 subslots, so 24.832 MHz.
    assert_eq!(found.max_dsd_rate(2), 24_832_000);
    assert!(found.max_dsd_rate(2) >= 22_579_200, "reaches DSD512");
    assert!(found.max_dsd_rate(2) < 45_158_400, "but not DSD1024");
}

#[test]
fn a_rate_past_the_endpoint_is_refused_with_what_it_takes() {
    let found = find_native_dsd(&ru7()).expect("RU7 advertises native DSD");
    let fits = DsdFormat {
        rate: DsdRate::new(11_289_600),
        channels: 2,
    };
    let too_fast = DsdFormat {
        rate: DsdRate::new(45_158_400),
        channels: 2,
    };

    assert!(found.accepts(fits).is_ok());
    assert!(found.accepts(too_fast).is_err());
}

#[test]
fn a_pcm_only_device_is_rejected_with_a_reason() {
    let mut config = vec![9, 0x02, 0, 0, 2, 1, 0, 0x80, 50];
    config.extend(interface(0, 0, 0, 0x01));
    config.extend([8, 0x24, 0x0A, 0x05, 0x03, 0x07, 0x00, 0x00]);
    config.extend(interface(1, 1, 2, 0x02));
    config.extend([
        16, 0x24, 0x01, 0x01, 0x05, 0x01, 0x01, 0x00, 0x00, 0x00, 0x02, 0x03, 0x00, 0x00, 0x00,
        0x00,
    ]);
    config.extend([6, 0x24, 0x02, 0x01, 0x04, 0x20]);
    config.extend(endpoint(0x01, 0x05, 776));

    let error = find_native_dsd(&config).expect_err("PCM only");

    assert!(
        error.message().contains("no native DSD"),
        "{}",
        error.message()
    );
}

#[test]
fn raw_data_in_a_non_native_subslot_is_not_accepted() {
    let mut config = vec![9, 0x02, 0, 0, 2, 1, 0, 0x80, 50];
    config.extend(interface(0, 0, 0, 0x01));
    config.extend([8, 0x24, 0x0A, 0x05, 0x03, 0x07, 0x00, 0x00]);
    config.extend(interface(1, 1, 2, 0x02));
    config.extend([
        16, 0x24, 0x01, 0x01, 0x05, 0x01, 0x00, 0x00, 0x00, 0x80, 0x02, 0x03, 0x00, 0x00, 0x00,
        0x00,
    ]);
    // Three-byte subslots cannot hold a 32-bit native DSD word.
    config.extend([6, 0x24, 0x02, 0x01, 0x03, 0x18]);
    config.extend(endpoint(0x01, 0x05, 776));

    assert!(find_native_dsd(&config).is_err());
}

#[test]
fn a_truncated_descriptor_stops_the_walk_instead_of_reading_past_the_end() {
    let mut config = ru7();
    config.truncate(config.len() - 4);

    // The final endpoint is lost, so the last candidate no longer qualifies.
    assert!(find_native_dsd(&config).is_ok());
    assert!(find_native_dsd(&config[..20]).is_err());
}

#[test]
fn a_zero_length_descriptor_does_not_loop_forever() {
    let config = vec![9, 0x02, 0, 0, 1, 1, 0, 0x80, 50, 0, 0, 0];

    assert!(find_native_dsd(&config).is_err());
}

#[test]
fn the_core_audio_name_and_the_usb_name_of_one_device_match_either_way_round() {
    assert!(names_match("Cayin RU7", "Cayin RU7 Playback"));
    assert!(names_match("Cayin RU7 Playback", "Cayin RU7"));
    // The fragment a user would actually type.
    assert!(names_match("Cayin RU7", "ru7"));
    assert!(names_match("Cayin RU7", "CAYIN"));
}

#[test]
fn a_different_device_does_not_match_and_neither_does_an_empty_name() {
    assert!(!names_match("Cayin RU7", "MacBook Pro Speakers"));
    // An empty name is contained by every string, so it must not match anything.
    assert!(!names_match("", "Cayin RU7"));
    assert!(!names_match("Cayin RU7", ""));
    assert!(!names_match("Cayin RU7", "   "));
}

fn subrange(min: u32, max: u32, step: u32) -> Vec<u8> {
    let mut out = Vec::new();
    for field in [min, max, step] {
        out.extend_from_slice(&field.to_le_bytes());
    }
    out
}

#[test]
fn discrete_rates_are_listed_once_each() {
    let mut report = 3_u16.to_le_bytes().to_vec();
    report.extend(subrange(44_100, 44_100, 0));
    report.extend(subrange(176_400, 176_400, 0));
    report.extend(subrange(352_800, 352_800, 0));

    assert_eq!(parse_clock_ranges(&report), [44_100, 176_400, 352_800]);
}

#[test]
fn a_stepped_subrange_walks_from_min_to_max() {
    let mut report = 1_u16.to_le_bytes().to_vec();
    report.extend(subrange(44_100, 176_400, 44_100));

    assert_eq!(
        parse_clock_ranges(&report),
        [44_100, 88_200, 132_300, 176_400]
    );
}

#[test]
fn a_report_shorter_than_it_claims_stops_at_what_is_there() {
    let mut report = 4_u16.to_le_bytes().to_vec();
    report.extend(subrange(352_800, 352_800, 0));

    assert_eq!(parse_clock_ranges(&report), [352_800]);
}

#[test]
fn an_empty_report_yields_no_rates() {
    assert!(parse_clock_ranges(&[]).is_empty());
    assert!(parse_clock_ranges(&0_u16.to_le_bytes()).is_empty());
}

fn info(bytes_per_channel: u64) -> NativeInfo {
    NativeInfo {
        name: "Cayin RU7".to_owned(),
        format: DsdFormat {
            rate: DsdRate::new(11_289_600),
            channels: 2,
        },
        container: "DSF",
        frame_rate: 352_800,
        bytes_per_channel,
    }
}

#[test]
fn a_file_that_is_not_a_whole_number_of_frames_keeps_every_byte_it_has() {
    // One byte short of 101 frames: the frame count floors, the byte count must not.
    let info = info(403);

    assert_eq!(info.total_frames(), 100);
    assert_eq!(info.bytes_per_channel, 403);
}

#[test]
fn a_whole_number_of_frames_reports_four_bytes_each() {
    let info = info(404);

    assert_eq!(info.total_frames(), 101);
    assert_eq!(info.bytes_per_channel, 404);
}

#[test]
fn a_natively_played_dac_is_described_by_its_frame_rate() {
    let device = info(404).device();

    assert_eq!(device.carrier, "native DSD");
    assert_eq!(device.bits, 32);
    assert_eq!(device.pcm_rate, 352_800);
    assert_eq!(device.buffer_frames, 352_800 / 8_000 * 32);
    assert!(device.exclusive);
}

#[test]
fn the_ring_holds_the_milliseconds_asked_for_and_never_too_little() {
    let format = DsdFormat {
        rate: DsdRate::new(11_289_600),
        channels: 2,
    };

    assert_eq!(capacity(format, 500), 352_800 * 8 * 500 / 1000);
    assert_eq!(capacity(format, 1), 65_536);
}

fn dac(name: &str) -> Dac {
    Dac {
        name: name.to_owned(),
        vendor: 1,
        product: 2,
        native: find_native_dsd(&ru7()).expect("RU7 advertises native DSD"),
    }
}

#[test]
fn a_dac_is_found_by_query_then_by_the_name_core_audio_gives_it() {
    let dacs = vec![dac("Topping D50"), dac("Cayin RU7")];

    assert_eq!(find_dac(Some("ru7"), "", &dacs), Ok(1));
    assert_eq!(find_dac(None, "Cayin RU7 Playback", &dacs), Ok(1));
    assert!(find_dac(None, "Nothing", &dacs).is_err());
    assert!(find_dac(None, "Nothing", &vec![]).is_err());
}

#[test]
fn a_claim_starts_by_re_enumerating_the_dac() {
    let mut claim = Claiming { lost: 0 };

    let action = dac("Cayin RU7").acquire(&mut claim, ClaimEvent::Begun);

    assert!(matches!(action, ClaimAction::Reenumerate));
}

#[test]
fn a_clock_that_reads_back_another_rate_is_refused() {
    let held = Held {
        native: find_native_dsd(&ru7()).expect("RU7 advertises native DSD"),
        name: "Cayin RU7".to_owned(),
    };

    assert_eq!(held.configure(11_289_600, 352_800).ok(), Some(352_800));
    assert!(held.configure(11_289_600, 48_000).is_err());
    assert_eq!(held.clock_index(), 5 * 256);
}

#[test]
fn pacing_sends_the_nominal_rate_over_a_second() {
    let mut pacer = Pacer::new(352_800);
    let mut frames = 0;
    for _ in 0..8_000 {
        frames += pacer.next();
    }

    assert_eq!(frames, 352_800);
}

#[test]
fn feedback_near_the_nominal_rate_moves_the_pace_and_anything_else_does_not() {
    let mut pacer = Pacer::new(352_800);
    // Sixteen bits of whole frames per microframe, sixteen of fraction.
    let nominal: u32 = 44 * 65_536 + 6_554;

    assert!(pacer.feedback(nominal + 100));
    assert!(!pacer.feedback(0));
    assert_eq!(
        feedback_value(&[0x9A, 0x19, 0x2C, 0x00], 0, 4),
        Some(0x002C_199A)
    );
    assert!(tolerable(0));
    assert!(!tolerable(-1));
    assert_eq!(resynced(5, 100), 105);
}

#[test]
fn an_engine_sends_what_is_queued_and_then_dsd_silence() {
    let (mut producer, consumer) = RingBuffer::<u8>::new(64);
    let queued: Vec<u8> = (1..=8).collect();
    assert_eq!(offer_bytes(&mut producer, &queued, 0), 8);
    let mut engine = Engine {
        frame_bytes: 8,
        consumer,
        state: PlaybackState::default(),
    };
    let mut out = vec![0_u8; 16];

    engine.fill(&mut out);

    assert_eq!(out[..8], queued[..]);
    assert_eq!(out[8..], [0x69; 8]);
    assert_eq!(engine.state.frames_played, 1);
    assert_eq!(engine.state.underrun_frames, 1);
}

#[test]
fn dropping_what_is_queued_leaves_dsd_silence() {
    let (mut producer, consumer) = RingBuffer::<u8>::new(64);
    assert_eq!(offer_bytes(&mut producer, &[1, 2, 3, 4, 5, 6, 7, 8], 0), 8);
    let mut engine = Engine {
        frame_bytes: 8,
        consumer,
        state: PlaybackState::default(),
    };
    engine.drop_queued();
    let mut out = vec![0_u8; 8];

    engine.fill(&mut out);

    assert_eq!(out, [0x69; 8]);
    assert_eq!(engine.state.frames_played, 0);
}

#[test]
fn a_transfer_carries_four_milliseconds_of_the_nominal_rate() {
    // 88200 frames a second are 11.025 in each microframe.
    let mut pacer = Pacer::new(88_200);
    let mut total = 0;
    for _ in 0..250 {
        let sizes = pacer.transfer(8);
        assert_eq!(sizes.len(), 32);
        assert!(sizes.iter().all(|size| *size == 11 * 8 || *size == 12 * 8));
        total += sizes.iter().sum::<usize>();
    }

    assert_eq!(total, 88_200 * 8);
}

#[test]
fn an_endpoint_takes_a_rate_its_packets_have_room_for() {
    assert!(packets_hold(352_800, 8, 392));
    assert!(packets_hold(8_000, 8, 8));
    assert!(!packets_hold(8_001, 8, 8));
}

#[test]
fn a_transfer_that_ran_late_is_resubmitted_and_one_that_broke_ends_the_chain() {
    assert_eq!(on_complete(0, true, false), Completion::Submit);
    assert_eq!(on_complete(UNDERRUN, true, false), Completion::Submit);
    assert_eq!(on_complete(0, true, true), Completion::Rest);
    assert_eq!(on_complete(0, false, false), Completion::Rest);
    assert_eq!(on_complete(-1, true, false), Completion::Stop);
}

#[test]
fn a_subrange_without_a_resolution_is_a_single_rate() {
    let mut report = 1_u16.to_le_bytes().to_vec();
    report.extend(subrange(44_100, 48_000, 0));

    assert_eq!(parse_clock_ranges(&report), [44_100]);
}

#[test]
fn a_queue_takes_as_much_as_it_has_room_for_and_no_more() {
    let (mut producer, mut consumer) = RingBuffer::<u8>::new(4);
    assert_eq!(offer_bytes(&mut producer, &[1, 2, 3, 4, 5, 6], 0), 4);
    assert_eq!(offer_bytes(&mut producer, &[1, 2, 3, 4, 5, 6], 4), 0);
    assert_eq!(consumer.pop(), Ok(1));
    assert_eq!(offer_bytes(&mut producer, &[1, 2, 3, 4, 5, 6], 4), 1);

    let (mut producer, _consumer) = RingBuffer::<i32>::new(3);
    assert_eq!(offer_samples(&mut producer, &[7, 8], 0), 2);
    assert_eq!(offer_samples(&mut producer, &[7, 8], 0), 1);
    assert_eq!(fits(5, 3), 3);
    assert_eq!(fits(2, 3), 2);
}

#[test]
fn a_microframe_takes_no_more_than_it_holds_and_the_rest_stays_queued() {
    let (mut producer, consumer) = RingBuffer::<u8>::new(64);
    let queued: Vec<u8> = (1..=12).collect();
    assert_eq!(offer_bytes(&mut producer, &queued, 0), 12);
    let mut engine = Engine {
        frame_bytes: 8,
        consumer,
        state: PlaybackState::default(),
    };
    let mut out = vec![0_u8; 8];

    engine.fill(&mut out);
    assert_eq!(out, queued[..8]);
    engine.fill(&mut out);

    assert_eq!(out[..4], queued[8..]);
    assert_eq!(out[4..], [0x69; 4]);
}

#[test]
fn a_transfer_that_will_not_schedule_is_tried_again_before_the_chain_is_dead() {
    assert_eq!(on_submit(true, 3), Submission::Sent);
    assert_eq!(on_submit(false, 1), Submission::Again);
    assert_eq!(on_submit(false, 2), Submission::Again);
    assert_eq!(on_submit(false, 3), Submission::Dead);
    assert!(listens_on(true, false));
    assert!(!listens_on(true, true));
    assert!(!listens_on(false, false));
}

#[test]
fn a_name_matches_whatever_its_case_and_the_space_around_it() {
    assert!(names_match("  CAYIN ru7 ", "cayin RU7 Playback"));
    assert!(names_match("cayin RU7 Playback", "\tCAYIN ru7\n"));
    assert!(!names_match("   ", "   "));
}

#[test]
fn a_native_seek_counts_in_dsd_bytes() {
    let info = NativeInfo {
        name: "Cayin RU7".to_owned(),
        format: DsdFormat {
            rate: DsdRate::new(2_822_400),
            channels: 2,
        },
        container: "DSF",
        frame_rate: 88_200,
        bytes_per_channel: 3_528_000,
    };

    assert_eq!(info.seek_place(88_200, 5), 2_116_800);
    assert_eq!(info.seek_place(88_200, -5), 0);
    assert_eq!(info.seek_place(88_200, 60), 3_528_000);
}
