//! FLAC files: metadata, and audio that the decoder hands over block by block.

use dsd_rust::audio::PcmFormat;
use dsd_rust::reader::flac::{
    interleave, parse_seek_table, parse_streaminfo, parse_vorbis_comment, FlacBlock, FlacError,
    FlacReader, SeekPoint,
};
use dsd_rust::reader::span::SpanPcm;
use dsd_rust::reader::tags::TrackTags;
use dsd_rust::reader::{PcmSource, ReadError};

/// A STREAMINFO body describing one stream, with no MD5.
fn streaminfo(rate: u32, bits: u32, channels: u16, frames: u64) -> Vec<u8> {
    let mut body = vec![0_u8; 34];
    body[0..2].copy_from_slice(&4096_u16.to_be_bytes());
    body[2..4].copy_from_slice(&4096_u16.to_be_bytes());
    let packed = (u64::from(rate) << 44)
        | (u64::from(channels - 1) << 41)
        | (u64::from(bits - 1) << 36)
        | frames;
    body[10..18].copy_from_slice(&packed.to_be_bytes());
    body
}

/// A Vorbis comment body carrying `fields`, as FLAC lays one out.
fn vorbis_comment(fields: &[&str]) -> Vec<u8> {
    let mut body = Vec::new();
    body.extend_from_slice(&0_u32.to_le_bytes());
    body.extend_from_slice(&(fields.len() as u32).to_le_bytes());
    for field in fields {
        body.extend_from_slice(&(field.len() as u32).to_le_bytes());
        body.extend_from_slice(field.as_bytes());
    }
    body
}

#[test]
fn streaminfo_yields_the_rate_width_and_channel_count() {
    let (format, frames, block) =
        parse_streaminfo(&streaminfo(96_000, 24, 2, 18_026_240)).expect("parses");

    assert_eq!(format.rate, 96_000);
    assert_eq!(format.bits, 24);
    assert_eq!(format.channels, 2);
    assert_eq!(frames, 18_026_240);
    assert_eq!(block, 4096);
}

#[test]
fn a_stream_of_unknown_length_is_refused_with_a_reason() {
    let error = parse_streaminfo(&streaminfo(44_100, 16, 2, 0)).expect_err("refused");

    assert!(error.message().contains("does not declare its length"));
}

#[test]
fn a_width_past_the_carrier_is_refused_rather_than_truncated() {
    let error = parse_streaminfo(&streaminfo(44_100, 32, 2, 100)).expect_err("refused");

    assert!(
        error.message().contains("32 bit FLAC"),
        "{}",
        error.message()
    );
}

#[test]
fn the_tags_this_player_shows_are_read_whatever_case_they_are_written_in() {
    let body = vorbis_comment(&[
        "ALBUM=Sob Rock",
        "artist=John Mayer",
        "TITLE=Last Train Home",
        "TRACKNUMBER=1/10",
        "REPLAYGAIN_TRACK_GAIN=-3.4 dB",
    ]);

    let tags = parse_vorbis_comment(&body);

    assert_eq!(tags.title.as_deref(), Some("Last Train Home"));
    assert_eq!(tags.artist.as_deref(), Some("John Mayer"));
    assert_eq!(tags.album.as_deref(), Some("Sob Rock"));
    assert_eq!(tags.track, Some(1));
}

#[test]
fn an_empty_or_truncated_comment_leaves_the_file_untagged_rather_than_failing() {
    assert_eq!(parse_vorbis_comment(&[]), TrackTags::default());
    assert_eq!(
        parse_vorbis_comment(&[0, 0, 0, 0, 9, 9]),
        TrackTags::default()
    );
}

#[test]
fn seek_points_come_in_stream_order_without_placeholders() {
    let mut body = Vec::new();
    for (sample, offset) in [(32_u64, 300_u64), (u64::MAX, 0), (0, 0), (16, 100)] {
        body.extend_from_slice(&sample.to_be_bytes());
        body.extend_from_slice(&offset.to_be_bytes());
        body.extend_from_slice(&16_u16.to_be_bytes());
    }

    let points = parse_seek_table(&body);

    assert_eq!(
        points,
        [
            SeekPoint {
                sample: 0,
                offset: 0
            },
            SeekPoint {
                sample: 16,
                offset: 100
            },
            SeekPoint {
                sample: 32,
                offset: 300
            },
        ]
    );
}

#[test]
fn a_blocks_channels_are_interleaved_and_left_justified() {
    let format = PcmFormat {
        rate: 44_100,
        bits: 16,
        channels: 2,
    };
    let block = FlacBlock {
        time: 0,
        channels: 2,
        duration: 2,
        samples: vec![1, 2, -1, -2],
    };

    assert_eq!(interleave(format, &block), [256, -256, 512, -512]);
}

fn crc(bytes: &[u8], polynomial: u32, width: u32) -> u32 {
    let mut sum: u32 = 0;
    for byte in bytes {
        sum ^= u32::from(*byte) << (width - 8);
        for _ in 0..8 {
            let carry = sum >> (width - 1) & 1 == 1;
            sum = sum << 1 & ((1 << width) - 1);
            if carry {
                sum ^= polynomial;
            }
        }
    }
    sum
}

const FRAMES_PER_BLOCK: usize = 16;

/// One block of sixteen stereo frames of 16-bit samples, stored verbatim. The samples of
/// frame `n` of the stream are `n` and `-n`.
fn block(number: u8) -> Vec<u8> {
    let mut out = vec![0xFF, 0xF8, 0x69, 0x18, number, FRAMES_PER_BLOCK as u8 - 1];
    out.push(crc(&out, 0x07, 8) as u8);
    for sign in [1_i16, -1] {
        out.push(0x02);
        for frame in 0..FRAMES_PER_BLOCK {
            let sample = (i16::from(number) * FRAMES_PER_BLOCK as i16 + frame as i16) * sign;
            out.extend_from_slice(&sample.to_be_bytes());
        }
    }
    let sum = crc(&out, 0x8005, 16) as u16;
    out.extend_from_slice(&sum.to_be_bytes());
    out
}

/// A file of three blocks, with a comment, and a seek table where one is wanted.
fn flac_file(seek_table: bool) -> Vec<u8> {
    let mut file = Vec::from(*b"fLaC");
    let info = streaminfo(44_100, 16, 2, 48);
    file.push(0);
    file.extend_from_slice(&(info.len() as u32).to_be_bytes()[1..]);
    file.extend_from_slice(&info);
    if seek_table {
        let mut table = Vec::new();
        for number in 0..3_u64 {
            table.extend_from_slice(&(number * 16).to_be_bytes());
            table.extend_from_slice(&(number * block(0).len() as u64).to_be_bytes());
            table.extend_from_slice(&16_u16.to_be_bytes());
        }
        file.push(3);
        file.extend_from_slice(&(table.len() as u32).to_be_bytes()[1..]);
        file.extend_from_slice(&table);
    }
    let comment = vorbis_comment(&["TITLE=So What"]);
    file.push(0x84);
    file.extend_from_slice(&(comment.len() as u32).to_be_bytes()[1..]);
    file.extend_from_slice(&comment);
    for number in 0..3 {
        file.extend(block(number));
    }
    file
}

fn left(samples: &[i32]) -> Vec<i32> {
    samples
        .chunks_exact(2)
        .map(|frame| frame[0] / 256)
        .collect()
}

#[test]
fn a_whole_file_decodes_to_the_samples_it_stores() {
    let mut reader = FlacReader::open(flac_file(false)).map_err(|_| ()).expect("opens");

    assert_eq!(reader.total_frames(), 48);
    assert_eq!(reader.tags().title.as_deref(), Some("So What"));
    assert_eq!(reader.container(), "FLAC");
    let mut out = Vec::new();
    assert_eq!(reader.read(&mut out).ok(), Some(16));
    assert!(reader.chunk_frames() >= 16);
    while reader.read(&mut out).expect("reads") > 0 {}
    assert_eq!(left(&out), (0..48).collect::<Vec<i32>>());
    assert_eq!(out[3], -256);
}

#[test]
fn a_seek_lands_on_the_block_holding_the_target_with_a_table_or_without() {
    for table in [false, true] {
        let mut reader = FlacReader::open(flac_file(table)).map_err(|_| ()).expect("opens");
        let mut out = Vec::new();

        assert_eq!(reader.seek(37).ok(), Some(32));
        reader.read(&mut out).expect("reads");
        assert_eq!(left(&out), (32..48).collect::<Vec<i32>>());

        out.clear();
        assert_eq!(reader.seek(20).ok(), Some(16));
        reader.read(&mut out).expect("reads");
        assert_eq!(left(&out), (16..32).collect::<Vec<i32>>());
    }
}

#[test]
fn a_damaged_block_is_reported_and_a_file_that_is_none_is_refused() {
    let mut file = flac_file(false);
    let last = file.len() - 1;
    file[last] ^= 1;
    let mut reader = FlacReader::open(file).map_err(|_| ()).expect("opens");
    let mut out = Vec::new();
    reader.read(&mut out).expect("reads");
    reader.read(&mut out).expect("reads");
    let held = out.clone();
    assert!(reader.read(&mut out).is_err());
    assert_eq!(out, held);

    assert!(matches!(
        FlacReader::open(b"RIFF and so on".to_vec()).map(|_| ()),
        Err(FlacError::Marker)
    ));
}

/// A file of three blocks, with the checksum of the second spoiled.
fn damaged_file(seek_table: bool) -> Vec<u8> {
    let mut file = flac_file(seek_table);
    let at = file.len() - block(2).len() - 1;
    file[at] ^= 1;
    file
}

#[test]
fn reading_goes_on_behind_a_block_that_does_not_decode() {
    let mut reader = FlacReader::open(damaged_file(false)).map_err(|_| ()).expect("opens");
    let mut out = Vec::new();

    assert_eq!(reader.read(&mut out), Ok(16));
    assert_eq!(reader.read(&mut out), Err(ReadError::Flac));
    assert_eq!(left(&out), (0..16).collect::<Vec<i32>>());
    out.clear();
    assert_eq!(reader.read(&mut out), Ok(16));
    assert_eq!(left(&out), (32..48).collect::<Vec<i32>>());
    assert_eq!(reader.read(&mut out), Ok(0));
    assert_eq!(reader.read(&mut out), Ok(0));
}

#[test]
fn a_seek_that_meets_a_damaged_block_stops_behind_it_and_a_seek_point_leads_past_it() {
    let mut reader = FlacReader::open(damaged_file(false)).map_err(|_| ()).expect("opens");
    let mut out = Vec::new();
    assert_eq!(reader.seek(40), Err(ReadError::Flac));
    assert_eq!(reader.read(&mut out), Ok(16));
    assert_eq!(left(&out), (32..48).collect::<Vec<i32>>());

    let mut reader = FlacReader::open(damaged_file(true)).map_err(|_| ()).expect("opens");
    out.clear();
    assert_eq!(reader.seek(40), Ok(32));
    assert_eq!(reader.read(&mut out), Ok(16));
    assert_eq!(left(&out), (32..48).collect::<Vec<i32>>());
}

#[test]
fn a_track_goes_on_with_its_file_behind_a_damaged_block() {
    let reader = FlacReader::open(damaged_file(false)).map_err(|_| ()).expect("opens");
    let mut track = SpanPcm::new(reader, 8, 44, TrackTags::default())
        .map_err(|_| ())
        .expect("reaches its start");
    let mut out = Vec::new();

    assert_eq!(track.read(&mut out), Ok(8));
    assert_eq!(track.read(&mut out), Err(ReadError::Flac));
    assert_eq!(track.read(&mut out), Ok(16));
    assert_eq!(track.read(&mut out), Ok(0));
    let expected: Vec<i32> = (8..16).chain(32..48).collect();
    assert_eq!(left(&out), expected);
}

#[test]
fn a_byte_behind_the_last_block_is_the_end() {
    let mut file = flac_file(false);
    file.push(0xFF);
    let mut reader = FlacReader::open(file).map_err(|_| ()).expect("opens");
    let mut out = Vec::new();

    while reader.read(&mut out).expect("reads") > 0 {}
    assert_eq!(left(&out), (0..48).collect::<Vec<i32>>());
    assert_eq!(reader.read(&mut out), Ok(0));
}
