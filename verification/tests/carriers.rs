//! Rates, bit order, and the two ways DSD is carried.

use dsd_rust::audio::{AudioFormat, PcmFormat};
use dsd_rust::dop::{pack_planes, split_word, word, Marker, MARKER_A, MARKER_B};
use dsd_rust::dsd::{BitOrder, DsdFormat, DsdRate, DSD_SILENCE_BYTE};
use dsd_rust::native;
use dsd_rust::native::{frame_bytes, BYTES_PER_SUBSLOT};
use dsd_rust::output::encoding::Encoding;

const FLOAT_SCALE: f32 = 1.0 / 8_388_608.0;

#[test]
fn sixteen_bit_codes_reach_the_carrier_left_justified_and_unchanged() {
    let format = PcmFormat {
        rate: 44_100,
        bits: 16,
        channels: 2,
    };

    assert_eq!(format.widen(i32::from(i16::MAX)), 0x7F_FF00);
    assert_eq!(format.widen(i32::from(i16::MIN)), -0x80_0000);
    assert_eq!(format.widen(0), 0);
}

#[test]
fn twenty_four_bit_codes_reach_the_carrier_untouched() {
    let format = PcmFormat {
        rate: 96_000,
        bits: 24,
        channels: 2,
    };

    assert_eq!(format.widen(0x7F_FFFF), 0x7F_FFFF);
    assert_eq!(format.widen(-0x80_0000), -0x80_0000);
}

#[test]
fn the_carrier_rate_is_the_sample_rate_for_pcm_and_a_sixteenth_for_dsd() {
    let pcm = AudioFormat::Pcm(PcmFormat {
        rate: 96_000,
        bits: 24,
        channels: 2,
    });
    let dsd = AudioFormat::Dsd(DsdFormat {
        rate: DsdRate::new(2_822_400),
        channels: 2,
    });

    assert_eq!(pcm.carrier_rate(), 96_000);
    assert_eq!(dsd.carrier_rate(), 176_400);
}

#[test]
fn a_format_describes_itself_by_rate_width_and_channels() {
    let pcm = AudioFormat::Pcm(PcmFormat {
        rate: 44_100,
        bits: 16,
        channels: 2,
    });
    let dsd = AudioFormat::Dsd(DsdFormat {
        rate: DsdRate::new(2_822_400),
        channels: 2,
    });

    assert_eq!(pcm.describe("44.1"), "PCM 44.1 kHz 16 bit, 2 ch");
    assert_eq!(dsd.describe("2.8224"), "DSD64 (2.8224 MHz), 2 ch");
    assert_eq!(DsdRate::new(1_000_000).describe("1.0000"), "1.0000 MHz");
    assert_eq!(pcm.carrier_name(), "PCM");
    assert_eq!(dsd.carrier_name(), "DoP");
    assert_eq!(pcm.carrier_bits(), 16);
    assert_eq!(dsd.carrier_bits(), 24);
    assert_eq!(pcm.dsd(), None);
    assert_eq!(dsd.channels(), 2);
}

fn dop_stream(planes: &[&[u8]]) -> Vec<i32> {
    let mut payloads = Vec::new();
    pack_planes(planes, &mut payloads);
    let mut marker = Marker::new();
    let mut words = Vec::with_capacity(payloads.len());
    for frame in payloads.chunks(planes.len()) {
        let byte = marker.next();
        for payload in frame {
            words.push(word(byte, *payload));
        }
    }
    words
}

#[test]
fn dop_round_trips_every_dsd_byte_of_every_channel() {
    let left: Vec<u8> = (0..=255).collect();
    let right: Vec<u8> = (0..=255).rev().collect();

    let words = dop_stream(&[&left, &right]);

    let mut decoded = [Vec::new(), Vec::new()];
    for (index, frame) in words.chunks(2).enumerate() {
        let expected = if index % 2 == 0 { MARKER_A } else { MARKER_B };
        for (channel, sample) in frame.iter().enumerate() {
            let (marker, payload) = split_word(*sample);
            assert_eq!(marker, expected);
            decoded[channel].extend_from_slice(&payload.to_be_bytes());
        }
    }
    assert_eq!(decoded[0], left);
    assert_eq!(decoded[1], right);
}

#[test]
fn odd_length_plane_is_padded_with_dsd_silence() {
    let words = dop_stream(&[&[0xAB, 0xCD, 0xEF]]);

    assert_eq!(split_word(words[0]).1, 0xABCD);
    assert_eq!(split_word(words[1]).1, 0xEF69);
}

#[test]
fn every_frame_word_survives_the_float32_encoding_unchanged() {
    let markers = [MARKER_A, MARKER_B];
    for marker in markers {
        for payload in 0..=u16::MAX {
            let original = word(marker, payload);
            let mut out = [0_u8; 4];
            Encoding::Float32.write(original, &mut out);
            let encoded = f32::from_le_bytes(out);
            assert_eq!(encoded, original as f32 * FLOAT_SCALE);
            assert_eq!((encoded / FLOAT_SCALE) as i32, original);
        }
    }
}

#[test]
fn dop_rate_is_a_sixteenth_of_the_dsd_rate() {
    assert_eq!(DsdRate::new(2_822_400).dop_pcm_rate(), 176_400);
    assert_eq!(DsdRate::new(5_644_800).dop_pcm_rate(), 352_800);
    assert_eq!(DsdRate::new(11_289_600).dop_pcm_rate(), 705_600);
}

#[test]
fn multiplier_names_the_dsd_tier() {
    assert_eq!(DsdRate::new(2_822_400).multiplier(), Some(64));
    assert_eq!(DsdRate::new(5_644_800).multiplier(), Some(128));
    assert_eq!(DsdRate::new(3_072_000).multiplier(), Some(64));
}

#[test]
fn a_rate_of_neither_family_has_no_tier() {
    assert_eq!(DsdRate::new(1_000_001).multiplier(), None);
    assert_eq!(DsdRate::new(1_000_001).hz(), 1_000_001);
}

#[test]
fn lsb_first_bytes_are_reversed_and_msb_first_bytes_are_not() {
    let mut bytes = [0b1000_0001, 0b0000_0010, 0x69];
    BitOrder::MsbFirst.normalize_to_msb_first(&mut bytes);
    assert_eq!(bytes, [0b1000_0001, 0b0000_0010, 0x69]);

    BitOrder::LsbFirst.normalize_to_msb_first(&mut bytes);
    assert_eq!(bytes, [0b1000_0001, 0b0100_0000, 0x96]);
}

#[test]
fn flipping_every_byte_twice_gives_it_back() {
    let mut bytes: Vec<u8> = (0..=255).collect();
    BitOrder::LsbFirst.normalize_to_msb_first(&mut bytes);
    for (index, byte) in bytes.iter().enumerate() {
        assert_eq!(*byte, (index as u8).reverse_bits());
    }
    BitOrder::LsbFirst.normalize_to_msb_first(&mut bytes);
    assert_eq!(bytes, (0..=255).collect::<Vec<u8>>());
}

#[test]
fn native_carries_twice_the_dsd_bits_per_frame_that_dop_does() {
    let rate = DsdRate::new(11_289_600);

    assert_eq!(rate.native_frame_rate(), 352_800);
    assert_eq!(rate.dop_pcm_rate(), 705_600);
}

#[test]
fn every_dsd_byte_of_every_channel_survives_the_round_trip() {
    let left: Vec<u8> = (0..=255).collect();
    let right: Vec<u8> = (0..=255).rev().collect();
    let mut out = Vec::new();

    let frames = native::pack_planes(&[&left, &right], &mut out);

    assert_eq!(frames, 64);
    assert_eq!(out.len(), frames * frame_bytes(2));
    let mut decoded = [Vec::new(), Vec::new()];
    for frame in out.chunks(frame_bytes(2)) {
        for (channel, subslot) in frame.chunks(BYTES_PER_SUBSLOT).enumerate() {
            decoded[channel].extend_from_slice(subslot);
        }
    }
    assert_eq!(decoded[0], left);
    assert_eq!(decoded[1], right);
}

#[test]
fn earliest_byte_lands_first_in_the_subslot() {
    let mut out = Vec::new();

    native::pack_planes(
        &[&[0x01, 0x02, 0x03, 0x04], &[0x11, 0x12, 0x13, 0x14]],
        &mut out,
    );

    assert_eq!(out, [0x01, 0x02, 0x03, 0x04, 0x11, 0x12, 0x13, 0x14]);
}

#[test]
fn a_partial_final_frame_is_padded_with_dsd_silence() {
    let mut out = Vec::new();

    let frames = native::pack_planes(&[&[0xAB, 0xCD]], &mut out);

    assert_eq!(frames, 1);
    assert_eq!(out, [0xAB, 0xCD, DSD_SILENCE_BYTE, DSD_SILENCE_BYTE]);
}

#[test]
fn no_planes_produces_no_frames() {
    let mut out = Vec::new();

    assert_eq!(native::pack_planes(&[], &mut out), 0);
    assert!(out.is_empty());
}
