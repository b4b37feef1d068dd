//! DSF files, and the cursor, span and queue that work on top of them.

use dsd_rust::audio::PcmFormat;
use dsd_rust::dop::{pack_planes, split_word, Marker, MARKER_A, MARKER_B, SILENCE_PAYLOAD};
use dsd_rust::dsd::{DsdFormat, DsdRate, DSD_SILENCE_BYTE};
use dsd_rust::output::encoding::{Carrier, Encoding};
use dsd_rust::output::stream::{IoContext, PlaybackState};
use dsd_rust::output::usb::session::{NativeFeed, NativeFeeder};
use dsd_rust::output::usb::stream::Engine;
use dsd_rust::player::{FeedStep, Feeder};
use dsd_rust::reader::dsf::DsfReader;
use dsd_rust::reader::source::{Container, DsdTrack, Source};
use dsd_rust::reader::span::{SpanDsd, SpanPcm, Window};
use dsd_rust::reader::tags::TrackTags;
use dsd_rust::reader::{DsdSource, PcmSource, ReadError};
use rtrb::RingBuffer;

const BLOCK: usize = 8;

/// Build a two-channel DSF whose data chunk holds `blocks` block pairs.
fn dsf_file(bits_per_sample: u32, samples_per_channel: u64, blocks: usize) -> Vec<u8> {
    let data_bytes = BLOCK * 2 * blocks;
    let mut file = Vec::new();
    file.extend_from_slice(b"DSD ");
    file.extend_from_slice(&28_u64.to_le_bytes());
    file.extend_from_slice(&0_u64.to_le_bytes());
    file.extend_from_slice(&0_u64.to_le_bytes());

    file.extend_from_slice(b"fmt ");
    file.extend_from_slice(&52_u64.to_le_bytes());
    for field in [1_u32, 0, 2, 2, 2_822_400, bits_per_sample] {
        file.extend_from_slice(&field.to_le_bytes());
    }
    file.extend_from_slice(&samples_per_channel.to_le_bytes());
    file.extend_from_slice(&(BLOCK as u32).to_le_bytes());
    file.extend_from_slice(&0_u32.to_le_bytes());

    file.extend_from_slice(b"data");
    file.extend_from_slice(&((data_bytes + 12) as u64).to_le_bytes());
    for block in 0..blocks {
        for channel in 0..2_u8 {
            for byte in 0..BLOCK {
                let index = (block * BLOCK + byte) as u8;
                file.push(if index as usize >= 12 {
                    DSD_SILENCE_BYTE
                } else {
                    index | channel << 6
                });
            }
        }
    }
    file
}

/// Append an ID3v2.3 tag holding one title frame, and point the DSD chunk at it.
fn dsf_file_with_tag(title: &str) -> Vec<u8> {
    let mut file = dsf_file(8, 96, 2);
    let mut frames = Vec::new();
    frames.extend_from_slice(b"TIT2");
    frames.extend_from_slice(&((title.len() + 1) as u32).to_be_bytes());
    frames.extend_from_slice(&[0, 0, 0]);
    frames.extend_from_slice(title.as_bytes());

    let start = file.len() as u64;
    file[20..28].copy_from_slice(&start.to_le_bytes());
    file.extend_from_slice(b"ID3");
    file.extend_from_slice(&[3, 0, 0]);
    for shift in [21, 14, 7, 0] {
        file.push(((frames.len() as u32 >> shift) & 0x7F) as u8);
    }
    file.extend_from_slice(&frames);
    file
}

fn drain<S: DsdSource>(source: &mut S) -> Vec<Vec<u8>> {
    let channels = source.format().channels as usize;
    let mut planes: Vec<Box<[u8]>> = vec![vec![0; source.chunk_bytes()].into(); channels];
    let mut out = vec![Vec::new(); channels];
    loop {
        let count = source.read(&mut planes).expect("read succeeds");
        if count == 0 {
            return out;
        }
        for (channel, plane) in planes.iter().enumerate() {
            out[channel].extend_from_slice(&plane[..count]);
        }
    }
}

#[test]
fn header_fields_describe_the_stream() {
    let reader = DsfReader::new(dsf_file(1, 96, 2)).expect("parses");

    assert_eq!(reader.format().rate, DsdRate::new(2_822_400));
    assert_eq!(reader.format().channels, 2);
    assert_eq!(reader.total_bytes_per_channel(), 12);
    assert_eq!(reader.chunk_bytes(), BLOCK);
}

#[test]
fn msb_first_data_is_deinterleaved_and_padding_is_trimmed() {
    let mut reader = DsfReader::new(dsf_file(8, 96, 2)).expect("parses");

    let planes = drain(&mut reader);

    assert_eq!(planes[0], (0..12_u8).collect::<Vec<_>>());
    assert_eq!(
        planes[1],
        (0..12_u8).map(|byte| byte | 0x40).collect::<Vec<_>>()
    );
}

#[test]
fn lsb_first_data_is_flipped_to_msb_first() {
    let mut reader = DsfReader::new(dsf_file(1, 96, 2)).expect("parses");

    let planes = drain(&mut reader);

    assert_eq!(
        planes[0],
        (0..12_u8).map(u8::reverse_bits).collect::<Vec<_>>()
    );
}

#[test]
fn truncated_data_stops_at_the_last_complete_block_pair() {
    let mut file = dsf_file(8, 160, 2);
    file.truncate(file.len() - BLOCK - 3);

    let planes = drain(&mut DsfReader::new(file).expect("parses"));

    assert_eq!(planes[0].len(), BLOCK);
    assert_eq!(planes[1].len(), BLOCK);
}

#[test]
fn a_seek_rounds_back_to_a_block_boundary_and_reads_on_from_there() {
    let mut reader = DsfReader::new(dsf_file(8, 96, 2)).expect("parses");
    let mut planes: Vec<Box<[u8]>> = vec![vec![0; BLOCK].into(); 2];

    let reached = reader.seek(BLOCK as u64 + 3).expect("seeks");

    assert_eq!(reached, BLOCK as u64);
    let count = reader.read(&mut planes).expect("reads");
    assert_eq!(count, 4);
    assert_eq!(planes[0][..4], [8, 9, 10, 11]);
}

#[test]
fn a_seek_back_inside_the_first_block_starts_the_file_again() {
    let mut reader = DsfReader::new(dsf_file(8, 96, 2)).expect("parses");
    let mut planes: Vec<Box<[u8]>> = vec![vec![0; BLOCK].into(); 2];
    reader.read(&mut planes).expect("reads");

    let reached = reader.seek(3).expect("seeks");

    assert_eq!(reached, 0);
    assert_eq!(reader.read(&mut planes).expect("reads"), BLOCK);
    assert_eq!(planes[0][..BLOCK], [0, 1, 2, 3, 4, 5, 6, 7]);
}

#[test]
fn a_seek_past_the_end_stops_at_the_last_block_of_audio() {
    let mut reader = DsfReader::new(dsf_file(8, 96, 2)).expect("parses");

    let reached = reader.seek(u64::MAX).expect("seeks");

    assert_eq!(reached, BLOCK as u64);
}

#[test]
fn a_tag_past_the_audio_is_read_without_moving_the_read_position() {
    let mut reader = DsfReader::new(dsf_file_with_tag("So What")).expect("parses");

    assert_eq!(reader.tags().title.as_deref(), Some("So What"));
    let planes = drain(&mut reader);
    assert_eq!(planes[0], (0..12_u8).collect::<Vec<_>>());
}

#[test]
fn a_file_pointing_at_no_metadata_reads_as_no_tags() {
    let reader = DsfReader::new(dsf_file(8, 96, 2)).expect("parses");

    assert_eq!(reader.tags(), &TrackTags::default());
}

#[test]
fn a_bad_magic_is_rejected() {
    let mut file = dsf_file(8, 96, 1);
    file[0] = b'X';

    let error = DsfReader::new(file).map(|_| ()).expect_err("rejects");

    assert!(
        error.message().contains("missing DSD chunk"),
        "{}",
        error.message()
    );
}

const ENCODING: Encoding = Encoding::Signed {
    bytes: 3,
    shift: 0,
    big_endian: false,
};

/// Pull a whole file through the reader and the DoP packer.
fn payloads_of(file: Vec<u8>) -> (Vec<u16>, Vec<Vec<u8>>) {
    let mut source = DsfReader::new(file).expect("parses");
    let channels = source.format().channels as usize;
    let mut planes: Vec<Box<[u8]>> = vec![vec![0; source.chunk_bytes()].into(); channels];
    let mut payloads = Vec::new();
    let mut expected = vec![Vec::new(); channels];
    loop {
        let count = source.read(&mut planes).expect("reads");
        if count == 0 {
            return (payloads, expected);
        }
        let slices: Vec<&[u8]> = planes.iter().map(|plane| &plane[..count]).collect();
        for (channel, slice) in slices.iter().enumerate() {
            expected[channel].extend_from_slice(slice);
        }
        pack_planes(&slices, &mut payloads);
    }
}

fn context(payloads: &[u16], stream_channels: usize) -> IoContext {
    let (mut producer, consumer) = RingBuffer::<i32>::new(payloads.len().max(1) * 2);
    for payload in payloads {
        producer.push(i32::from(*payload)).expect("ring has room");
    }
    let context = IoContext {
        consumer,
        channels: 2,
        stream_index: 0,
        encoding: ENCODING,
        carrier: Carrier::Dop,
        marker: Marker::new(),
        state: PlaybackState::default(),
    };
    assert!(stream_channels >= 2);
    context
}

/// Decode the device buffer back into per-channel DSD bytes, checking marker alternation.
fn decode(buffer: &[u8], stream_channels: usize, frame: &mut usize) -> Vec<Vec<u8>> {
    let mut channels = vec![Vec::new(); stream_channels];
    for chunk in buffer.chunks_exact(3 * stream_channels) {
        let expected = if *frame % 2 == 0 { MARKER_A } else { MARKER_B };
        for (channel, sample) in chunk.chunks_exact(3).enumerate() {
            let word = i32::from_le_bytes([sample[0], sample[1], sample[2], 0]) << 8 >> 8;
            let (marker, payload) = split_word(word);
            assert_eq!(marker, expected, "frame {frame} channel {channel}");
            channels[channel].extend_from_slice(&payload.to_be_bytes());
        }
        *frame += 1;
    }
    channels
}

#[test]
fn dsd_reaches_the_device_buffer_bit_for_bit() {
    let (payloads, expected) = payloads_of(dsf_file(1, (BLOCK * 4 * 8) as u64, 4));
    let mut context = context(&payloads, 2);

    // An odd buffer length makes every render cross ring and block boundaries.
    let mut decoded = vec![Vec::new(); 2];
    let mut frame = 0;
    for _ in 0..12 {
        let mut buffer = vec![0_u8; 3 * 2 * 7];
        context.fill(&mut buffer, 2);
        for (channel, bytes) in decode(&buffer, 2, &mut frame).into_iter().enumerate() {
            decoded[channel].extend_from_slice(&bytes);
        }
    }

    for channel in 0..2 {
        let length = expected[channel].len();
        assert_eq!(decoded[channel][..length], expected[channel][..]);
    }
    assert_eq!(context.state.frames_played, payloads.len() as u64 / 2);
}

#[test]
fn an_empty_queue_renders_dsd_silence_instead_of_pcm_zero() {
    let mut context = context(&[], 2);
    let mut buffer = vec![0_u8; 3 * 2 * 4];

    context.fill(&mut buffer, 2);

    let mut frame = 0;
    for channel in decode(&buffer, 2, &mut frame) {
        assert_eq!(channel, vec![0x69; 8]);
    }
    assert_eq!(context.state.underrun_frames, 4);
}

#[test]
fn channels_beyond_the_file_get_dsd_silence() {
    let (payloads, _) = payloads_of(dsf_file(8, (BLOCK * 8) as u64, 1));
    let mut context = context(&payloads, 4);
    let mut buffer = vec![0_u8; 3 * 4 * 4];

    context.fill(&mut buffer, 4);

    let mut frame = 0;
    let decoded = decode(&buffer, 4, &mut frame);
    assert_eq!(decoded[2], SILENCE_PAYLOAD.to_be_bytes().repeat(4));
    assert_eq!(decoded[3], decoded[2]);
}

#[test]
fn the_silence_flag_stops_the_queue_from_draining() {
    let (payloads, _) = payloads_of(dsf_file(8, (BLOCK * 8) as u64, 1));
    let mut context = context(&payloads, 2);
    context.state.silence = true;
    let mut buffer = vec![0_u8; 3 * 2 * 4];

    context.fill(&mut buffer, 2);

    let mut frame = 0;
    assert_eq!(decode(&buffer, 2, &mut frame)[0], vec![0x69; 8]);
    assert_eq!(context.state.frames_played, 0);
}

#[test]
fn a_paused_queue_keeps_its_place_and_the_markers_keep_alternating() {
    let (payloads, expected) = payloads_of(dsf_file(8, (BLOCK * 8) as u64, 1));
    let mut context = context(&payloads, 2);
    let mut frame = 0;
    let mut buffer = vec![0_u8; 3 * 2 * 3];
    context.state.paused = true;
    context.fill(&mut buffer, 2);
    assert_eq!(decode(&buffer, 2, &mut frame)[0], vec![0x69; 6]);
    context.state.paused = false;

    context.fill(&mut buffer, 2);

    assert_eq!(decode(&buffer, 2, &mut frame)[0], expected[0][..6]);
    assert_eq!(context.state.frames_played, 3);
}

#[test]
fn dropping_the_queue_leaves_silence() {
    let (payloads, _) = payloads_of(dsf_file(8, (BLOCK * 8) as u64, 1));
    let mut context = context(&payloads, 2);
    context.drop_queued();
    let mut buffer = vec![0_u8; 3 * 2 * 2];

    context.fill(&mut buffer, 2);

    let mut frame = 0;
    assert_eq!(decode(&buffer, 2, &mut frame)[0], vec![0x69; 4]);
}

fn whole(file: Vec<u8>) -> Source {
    let reader = DsfReader::new(file).expect("parses");
    Source::of_dsd(DsdTrack::Whole(Container::Dsf(reader)))
}

#[test]
fn a_feeder_queues_everything_it_reads_in_order_and_then_parks() {
    let file = dsf_file(8, 96, 2);
    let (payloads, _) = payloads_of(file.clone());
    let (producer, mut consumer) = RingBuffer::<i32>::new(4);
    let mut feeder = Feeder::new(whole(file), producer);
    let mut queued = Vec::new();
    loop {
        match feeder.step(false).expect("reads") {
            FeedStep::Park => break,
            FeedStep::Wait => {
                while let Ok(sample) = consumer.pop() {
                    queued.push(sample);
                }
            }
            FeedStep::Go => {}
            FeedStep::Leave => unreachable!("nobody told it to stop"),
        }
    }
    while let Ok(sample) = consumer.pop() {
        queued.push(sample);
    }

    let expected: Vec<i32> = payloads.iter().map(|payload| i32::from(*payload)).collect();
    assert_eq!(queued, expected);
    assert!(feeder.finished);
    assert_eq!(feeder.frames_written, 6);
    assert_eq!(feeder.step(true), Ok(FeedStep::Leave));
}

#[test]
fn a_feeder_seeks_by_dropping_its_chunk_and_counting_on_from_the_landing() {
    let (producer, mut consumer) = RingBuffer::<i32>::new(64);
    let mut feeder = Feeder::new(whole(dsf_file(8, 96, 2)), producer);
    assert_eq!(feeder.step(false), Ok(FeedStep::Go));

    assert_eq!(feeder.seek(5), Ok(4));

    assert_eq!(feeder.frames_written, 4);
    assert_eq!(feeder.step(false), Ok(FeedStep::Go));
    assert_eq!(feeder.step(false), Ok(FeedStep::Go));
    assert_eq!(consumer.pop(), Ok(0x0809));
    assert_eq!(consumer.pop(), Ok(0x4849));
}

#[test]
fn a_native_feeder_queues_the_bytes_themselves() {
    let (producer, mut consumer) = RingBuffer::<u8>::new(64);
    let feed = NativeFeed::of(whole(dsf_file(8, 96, 2))).expect("DSD");
    let mut feeder = NativeFeeder::new(feed, producer);
    while feeder.step(false) != Ok(FeedStep::Park) {}
    let mut queued = Vec::new();
    while let Ok(byte) = consumer.pop() {
        queued.push(byte);
    }

    assert_eq!(queued[..8], [0, 1, 2, 3, 0x40, 0x41, 0x42, 0x43]);
    assert_eq!(queued.len(), 24);
    assert_eq!(feeder.frames_written, 3);
    assert_eq!(feeder.seek(9), Ok(2));
}

#[test]
fn a_source_seeks_by_carrier_frames() {
    let mut source = whole(dsf_file(8, 96, 2));

    assert_eq!(source.total_frames(), 6);
    assert_eq!(source.chunk_frames(), 4);
    assert_eq!(source.seek(5), Ok(4));
    let mut out = Vec::new();
    assert_eq!(source.read(&mut out), Ok(2));
    assert_eq!(out, [0x0809, 0x4849, 0x0A0B, 0x4A4B]);
    assert_eq!(source.read(&mut out), Ok(0));
}

/// A DSD source of ascending bytes, addressable only in whole blocks the way DSF is.
struct Blocks {
    bytes: Vec<u8>,
    block: usize,
    position: usize,
    tags: TrackTags,
}

impl DsdSource for Blocks {
    fn container(&self) -> &'static str {
        "test"
    }

    fn format(&self) -> DsdFormat {
        DsdFormat {
            rate: DsdRate::new(2_822_400),
            channels: 1,
        }
    }

    fn total_bytes_per_channel(&self) -> u64 {
        self.bytes.len() as u64
    }

    fn tags(&self) -> &TrackTags {
        &self.tags
    }

    fn chunk_bytes(&self) -> usize {
        self.block
    }

    fn read(&mut self, planes: &mut [Box<[u8]>]) -> Result<usize, ReadError> {
        let end = (self.position + self.block).min(self.bytes.len());
        let count = end - self.position;
        planes[0][..count].copy_from_slice(&self.bytes[self.position..end]);
        self.position = end;
        Ok(count)
    }

    fn seek(&mut self, bytes_per_channel: u64) -> Result<u64, ReadError> {
        let block = bytes_per_channel.min(self.bytes.len() as u64) / self.block as u64;
        self.position = block as usize * self.block;
        Ok(self.position as u64)
    }
}

fn blocks() -> Blocks {
    Blocks {
        bytes: (0..=255).collect(),
        block: 16,
        position: 0,
        tags: TrackTags::default(),
    }
}

fn drain_dsd<S: DsdSource>(source: &mut S) -> Vec<u8> {
    drain(source).remove(0)
}

#[test]
fn a_span_plays_only_its_own_bytes_although_the_seek_lands_on_a_block() {
    let mut span = SpanDsd::new(blocks(), 20, 50, TrackTags::default()).expect("opens");

    assert_eq!(span.total_bytes_per_channel(), 30);
    assert_eq!(drain_dsd(&mut span), (20_u8..50).collect::<Vec<u8>>());
}

#[test]
fn a_span_seek_counts_from_the_start_of_the_track() {
    let mut span = SpanDsd::new(blocks(), 20, 50, TrackTags::default()).expect("opens");

    assert_eq!(span.seek(5).expect("seeks"), 5);
    assert_eq!(drain_dsd(&mut span), (25_u8..50).collect::<Vec<u8>>());
}

#[test]
fn a_span_seek_past_its_end_lands_on_its_end_and_reads_nothing_more() {
    let mut span = SpanDsd::new(blocks(), 20, 50, TrackTags::default()).expect("opens");

    assert_eq!(span.seek(999).expect("seeks"), 30);
    assert!(drain_dsd(&mut span).is_empty());
}

#[test]
fn the_last_span_of_a_file_runs_to_the_end_of_it() {
    let mut span = SpanDsd::new(blocks(), 240, 256, TrackTags::default()).expect("opens");

    assert_eq!(drain_dsd(&mut span), (240_u8..=255).collect::<Vec<u8>>());
}

#[test]
fn a_span_reports_the_cue_sheets_names_rather_than_the_files() {
    let tags = TrackTags {
        title: Some("So What".to_owned()),
        ..TrackTags::default()
    };

    let span = SpanDsd::new(blocks(), 0, 16, tags).expect("opens");

    assert_eq!(span.tags().title.as_deref(), Some("So What"));
    assert_eq!(span.container(), "test");
}

/// A PCM source of ascending frames, addressable to the frame.
struct Frames {
    frames: u64,
    position: u64,
    block: usize,
    tags: TrackTags,
}

impl PcmSource for Frames {
    fn container(&self) -> &'static str {
        "test"
    }

    fn format(&self) -> PcmFormat {
        PcmFormat {
            rate: 44_100,
            bits: 16,
            channels: 2,
        }
    }

    fn total_frames(&self) -> u64 {
        self.frames
    }

    fn tags(&self) -> &TrackTags {
        &self.tags
    }

    fn chunk_frames(&self) -> usize {
        self.block
    }

    fn read(&mut self, out: &mut Vec<i32>) -> Result<usize, ReadError> {
        let end = (self.position + self.block as u64).min(self.frames);
        for frame in self.position..end {
            out.push(frame as i32);
            out.push(-(frame as i32));
        }
        let count = end - self.position;
        self.position = end;
        Ok(count as usize)
    }

    fn seek(&mut self, frame: u64) -> Result<u64, ReadError> {
        self.position = frame.min(self.frames);
        Ok(self.position)
    }
}

#[test]
fn a_pcm_span_plays_only_the_frames_between_its_bounds() {
    let inner = Frames {
        frames: 100,
        position: 0,
        block: 7,
        tags: TrackTags::default(),
    };
    let mut span = SpanPcm::new(inner, 10, 25, TrackTags::default()).expect("opens");

    let mut out = Vec::new();
    while span.read(&mut out).expect("reads") > 0 {}

    assert_eq!(span.total_frames(), 15);
    let left: Vec<i32> = out.chunks_exact(2).map(|frame| frame[0]).collect();
    assert_eq!(left, (10..25).collect::<Vec<i32>>());
}

#[test]
fn a_window_that_lands_past_its_target_owes_no_skip() {
    let mut window = Window::new(10, 20);

    assert_eq!(window.landed(0, 12), 2);
    assert_eq!(window.skip, 0);
    assert_eq!(window.remaining(), 8);
}

#[test]
fn a_dsd_source_gives_its_reader_back_unread() {
    let source = whole(dsf_file(8, 96, 2));

    let track = source.into_dsd().expect("DSD");

    assert_eq!(track.container(), "DSF");
    assert_eq!(track.total_bytes_per_channel(), 12);
}

#[test]
fn float_buffers_carry_every_dop_word_exactly() {
    let (payloads, _) = payloads_of(dsf_file(8, (BLOCK * 8) as u64, 1));
    let mut context = context(&payloads, 2);
    context.encoding = Encoding::Float32;
    let mut buffer = vec![0_u8; 4 * 2 * 4];

    context.fill(&mut buffer, 2);

    for (slot, sample) in buffer.chunks_exact(4).enumerate() {
        let value = f32::from_le_bytes([sample[0], sample[1], sample[2], sample[3]]);
        let word = (f64::from(value) * 8_388_608.0) as i32;
        let marker = if slot / 2 % 2 == 0 { MARKER_A } else { MARKER_B };
        assert_eq!(split_word(word), (marker, payloads[slot]));
    }
}

#[test]
fn native_dsd_reaches_the_dac_as_the_bytes_of_the_file() {
    let (producer, consumer) = RingBuffer::<u8>::new(64);
    let feed = NativeFeed::of(whole(dsf_file(8, 96, 2))).expect("DSD");
    let mut feeder = NativeFeeder::new(feed, producer);
    while feeder.step(false) != Ok(FeedStep::Park) {}
    let mut engine = Engine {
        frame_bytes: 8,
        consumer,
        state: PlaybackState::default(),
    };
    let mut sent = vec![0_u8; 32];

    engine.fill(&mut sent);

    for byte in 0..12_u8 {
        let at = usize::from(byte) / 4 * 8 + usize::from(byte) % 4;
        assert_eq!((sent[at], sent[at + 4]), (byte, byte | 0x40));
    }
    assert_eq!(sent[24..], [0x69; 8]);
}

#[test]
fn a_span_that_ends_before_it_starts_has_nothing_to_read() {
    let inner = Frames {
        frames: 100,
        position: 0,
        block: 7,
        tags: TrackTags::default(),
    };
    let mut span = SpanPcm::new(inner, 25, 10, TrackTags::default()).expect("opens");
    let mut out = vec![5];

    assert_eq!(span.total_frames(), 0);
    assert_eq!(span.read(&mut out), Ok(0));
    assert_eq!(span.seek(3), Ok(0));
    assert_eq!(span.read(&mut out), Ok(0));
    assert_eq!(out, [5]);

    let mut span = SpanDsd::new(blocks(), 20, 20, TrackTags::default()).expect("opens");
    assert_eq!(span.total_bytes_per_channel(), 0);
    assert!(drain_dsd(&mut span).is_empty());
}

#[test]
fn no_read_gives_more_than_a_chunk() {
    let mut source = whole(dsf_file(8, (BLOCK * 8) as u64, 1));
    let most = source.chunk_frames();
    let mut out = Vec::new();
    loop {
        let frames = source.read(&mut out).expect("reads");
        assert!(frames <= most);
        if frames == 0 {
            break;
        }
    }
    assert_eq!(most, BLOCK / 2);
}
