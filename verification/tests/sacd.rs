//! SACD images: the table of contents, the demultiplexer, DST, and a whole disc.

use dsd_rust::dsd::DSD_SILENCE_BYTE;
use dsd_rust::reader::sacd::bits::Bits;
use dsd_rust::reader::sacd::dst::{half_byte_probability, Decoder, DstError};
use dsd_rust::reader::sacd::toc::{read_area, string_at, timecode, TocError, SECTOR};
use dsd_rust::reader::sacd::{is_image, Demux, Disc, DiscError, FRAME_BYTES};
use dsd_rust::reader::tags::TrackTags;
use dsd_rust::reader::{DsdSource, ReadError};
use dsd_rust::tui::browser::list_disc;

fn planes(count: usize, bytes: usize) -> Vec<Box<[u8]>> {
    vec![vec![0_u8; bytes].into(); count]
}

#[test]
fn bits_come_out_most_significant_first_and_run_out_as_zero() {
    let mut bits = Bits::new(&[0b1011_0010, 0xFF]);

    assert_eq!(bits.take(4), 0b1011);
    assert_eq!(bits.take(4), 0b0010);
    assert_eq!(bits.take(8), 0xFF);
    assert_eq!(bits.take(8), 0);
}

#[test]
fn signed_fields_sign_extend_from_their_own_width() {
    let mut bits = Bits::new(&[0b1000_0000, 0b0111_1111]);

    assert_eq!(bits.take_signed(9), -256);
    assert_eq!(bits.take_signed(7), -1);
}

#[test]
fn a_rice_code_is_its_zeros_then_its_low_bits() {
    // 0001 selects a prefix of 3, then two low bits 10: (3 << 2) + 2.
    let mut bits = Bits::new(&[0b0001_1000]);

    assert_eq!(bits.golomb(2), 14);
}

#[test]
fn an_uncoded_frame_hands_back_the_dsd_it_carries_interleaved_by_byte() {
    let mut decoder = Decoder::new(2, 16).expect("two channels");
    let mut planes = planes(2, 2);
    // A zero flag byte, then one byte per channel in turn.
    let frame = [0x00, 0x12, 0xAB, 0x34, 0xCD];

    decoder.decode(&frame, &mut planes).expect("decodes");

    assert_eq!(&planes[0][..2], [0x12, 0x34]);
    assert_eq!(&planes[1][..2], [0xAB, 0xCD]);
}

#[test]
fn an_uncoded_frame_that_runs_short_is_padded_with_dsd_silence() {
    let mut decoder = Decoder::new(2, 16).expect("two channels");
    let mut planes = planes(2, 2);

    decoder
        .decode(&[0x00, 0x12, 0xAB], &mut planes)
        .expect("decodes");

    assert_eq!(&planes[0][..2], [0x12, DSD_SILENCE_BYTE]);
    assert_eq!(&planes[1][..2], [0xAB, DSD_SILENCE_BYTE]);
}

#[test]
fn the_opening_probability_reverses_the_low_seven_bits_of_the_first_coefficient() {
    assert_eq!(half_byte_probability(0), 1);
    assert_eq!(half_byte_probability(1), 65);
    assert_eq!(half_byte_probability(127), 128);
    // A negative coefficient keeps its low seven bits, as two's complement leaves them.
    assert_eq!(half_byte_probability(-1), 128);
}

#[test]
fn a_frame_too_short_to_hold_a_header_is_refused() {
    let mut decoder = Decoder::new(2, 16).expect("two channels");

    let error = decoder
        .decode(&[0x80], &mut planes(2, 2))
        .expect_err("refused");

    assert!(error.message().contains("DST frame"), "{}", error.message());
}

#[test]
fn an_uncoded_frame_with_anything_else_in_its_header_is_refused() {
    let mut decoder = Decoder::new(2, 16).expect("two channels");

    assert_eq!(
        decoder.decode(&[0x01, 0x12, 0xAB], &mut planes(2, 2)),
        Err(DstError::UncodedHeader)
    );
}

/// Bits written most significant first.
struct Writer {
    bytes: Vec<u8>,
    count: usize,
}

impl Writer {
    fn put(&mut self, value: u32, width: u32) {
        for shift in (0..width).rev() {
            if self.count % 8 == 0 {
                self.bytes.push(0);
            }
            let bit = (value >> shift & 1) as u8;
            let last = self.bytes.len() - 1;
            self.bytes[last] |= bit << (7 - self.count % 8);
            self.count += 1;
        }
    }
}

#[test]
fn a_coded_frame_with_a_filter_of_zeros_decodes_the_same_every_time() {
    // One segmentation and one mapping for both, a filter of one zero coefficient, a
    // probability table of one entry, and coded data of zeros.
    let mut frame = Writer {
        bytes: Vec::new(),
        count: 0,
    };
    frame.put(1, 1);
    frame.put(0b111, 3);
    frame.put(0b111, 3);
    frame.put(1, 1);
    frame.put(0, 1);
    frame.put(0, 7);
    frame.put(0, 1);
    frame.put(0, 9);
    frame.put(0, 6);
    frame.put(0, 1);
    frame.put(63, 7);
    frame.put(0, 64);
    let mut decoder = Decoder::new(1, 16).expect("one channel");
    let mut first = planes(1, 2);
    let mut second = planes(1, 2);

    let once = decoder.decode(&frame.bytes, &mut first);
    let again = decoder.decode(&frame.bytes, &mut second);

    assert_eq!(once, again);
    assert_eq!(first, second);
}

/// One audio sector: a header, packet descriptions, frame info, then packet payloads.
fn sector(packets: &[(bool, usize)], timecode: u32, sector_count: u8, fill: u8) -> Vec<u8> {
    let starts = packets.iter().filter(|(start, _)| *start).count();
    let mut data = vec![0_u8; SECTOR];
    data[0] = ((packets.len() as u8) << 5) | ((starts as u8) << 2) | 1;
    let info_base = 1 + packets.len() * 2;
    let mut cursor = info_base + starts * 4;
    let mut info = 0;
    for (index, (start, length)) in packets.iter().enumerate() {
        let head = (u8::from(*start) << 7) | (2 << 3) | ((length >> 8) as u8 & 7);
        data[1 + index * 2] = head;
        data[2 + index * 2] = (length & 0xFF) as u8;
        if *start {
            let at = info_base + info * 4;
            data[at] = (timecode / (60 * 75)) as u8;
            data[at + 1] = ((timecode / 75) % 60) as u8;
            data[at + 2] = (timecode % 75) as u8;
            data[at + 3] = sector_count << 2;
            info += 1;
        }
        data[cursor..cursor + length].fill(fill);
        cursor += length;
    }
    data
}

fn demux_over(sectors: Vec<Vec<u8>>) -> Demux {
    let mut demux = Demux::new(2, 0, sectors.len() as u32);
    for data in sectors {
        demux.sector += 1;
        demux.parse(&data);
    }
    demux
}

#[test]
fn a_frame_spanning_two_sectors_comes_out_whole_and_in_order() {
    let mut demux = demux_over(vec![
        sector(&[(true, 100)], 0, 2, 0xAA),
        sector(&[(false, 50), (true, 60)], 1, 1, 0xBB),
    ]);

    let first = demux.ready.pop_front().expect("first frame");
    assert_eq!(first.timecode, 0);
    assert_eq!(first.data.len(), 150);
    assert_eq!(first.data[0], 0xAA);
    assert_eq!(first.data[149], 0xBB);

    let second = demux.ready.pop_front().expect("second frame");
    assert_eq!(second.timecode, 1);
    assert_eq!(second.data.len(), 60);
}

#[test]
fn a_sector_that_describes_no_audio_is_skipped_rather_than_ending_the_track() {
    let mut blank = vec![0_u8; SECTOR];
    blank[0] = 0;
    let demux = demux_over(vec![blank, sector(&[(true, 40)], 7, 1, 0xCC)]);

    assert_eq!(demux.ready.len(), 1);
    assert_eq!(demux.ready[0].timecode, 7);
}

#[test]
fn a_packet_claiming_more_bytes_than_a_sector_holds_drops_the_frame() {
    let demux = demux_over(vec![sector(&[(true, 40)], 0, 1, 1), {
        let mut bad = vec![0_u8; SECTOR];
        bad[0] = (1 << 5) | (1 << 2) | 1;
        bad[1] = 0x80 | (2 << 3) | 7;
        bad[2] = 0xFF;
        bad
    }]);

    assert_eq!(demux.ready.len(), 1);
}

#[test]
fn an_uncompressed_frame_completes_on_its_own_length() {
    let mut demux = Demux::new(2, 0, 1);
    demux.channels = 2;
    demux.open_frame(&[0, 0, 5], false);
    demux.append(&vec![0x69; FRAME_BYTES]);
    assert!(demux.ready.is_empty());
    demux.append(&vec![0x69; FRAME_BYTES]);

    assert_eq!(demux.ready.len(), 1);
    assert_eq!(demux.ready[0].data.len(), FRAME_BYTES * 2);
    assert!(!demux.ready[0].dst_encoded);
}

/// An area TOC and the track list sectors that follow it, as a disc lays them out.
fn area_toc(tracks: &[(u32, u32, u32, u32)], titles: &[&str]) -> Vec<u8> {
    let mut data = vec![0_u8; SECTOR * 4];
    data[0..8].copy_from_slice(b"TWOCHTOC");
    data[20] = 4;
    data[32] = 2;
    data[69] = tracks.len() as u8;

    let list = &mut data[SECTOR..SECTOR * 2];
    list[0..8].copy_from_slice(b"SACDTRL1");
    for (index, (start, length, _, _)) in tracks.iter().enumerate() {
        list[8 + index * 4..12 + index * 4].copy_from_slice(&start.to_be_bytes());
        list[1028 + index * 4..1032 + index * 4].copy_from_slice(&length.to_be_bytes());
    }

    let times = &mut data[SECTOR * 2..SECTOR * 3];
    times[0..8].copy_from_slice(b"SACDTRL2");
    for (index, (_, _, start, frames)) in tracks.iter().enumerate() {
        let at = 8 + index * 4;
        times[at] = (start / (60 * 75)) as u8;
        times[at + 1] = ((start / 75) % 60) as u8;
        times[at + 2] = (start % 75) as u8;
        let at = 1028 + index * 4;
        times[at] = (frames / (60 * 75)) as u8;
        times[at + 1] = ((frames / 75) % 60) as u8;
        times[at + 2] = (frames % 75) as u8;
    }

    let text = &mut data[SECTOR * 3..SECTOR * 4];
    text[0..8].copy_from_slice(b"SACDTTxt");
    let mut cursor = 8 + titles.len() * 2 + 8;
    for (index, title) in titles.iter().enumerate() {
        let position = cursor as u16;
        text[8 + index * 2..10 + index * 2].copy_from_slice(&position.to_be_bytes());
        text[cursor] = 1;
        cursor += 4;
        text[cursor] = 1;
        text[cursor + 1] = 0x20;
        cursor += 2;
        text[cursor..cursor + title.len()].copy_from_slice(title.as_bytes());
        cursor += title.len() + 1;
    }
    data
}

#[test]
fn a_timecode_counts_frames_from_the_start_of_the_area() {
    assert_eq!(timecode(&[0, 0, 0]), 0);
    assert_eq!(timecode(&[1, 2, 3]), 75 * 62 + 3);
}

#[test]
fn the_track_list_gives_every_track_its_sectors_its_place_and_its_title() {
    let data = area_toc(
        &[(584, 100, 0, 150), (684, 200, 150, 300)],
        &["Allegro moderato", "Adagio"],
    );

    let area = read_area(&data).expect("parses");

    assert_eq!(area.channels, 2);
    assert_eq!(area.rate.hz(), 2_822_400);
    assert_eq!(area.tracks.len(), 2);
    assert_eq!(area.tracks[0].start_lsn, 584);
    assert_eq!(area.tracks[0].end_lsn, 684);
    assert_eq!(area.tracks[1].start_frame, 150);
    assert_eq!(area.tracks[1].frames, 300);
    assert_eq!(area.tracks[1].end_frame(), 450);
    assert_eq!(
        area.tracks[0].tags.title.as_deref(),
        Some("Allegro moderato")
    );
    assert_eq!(area.tracks[1].tags.title.as_deref(), Some("Adagio"));
    assert_eq!(area.tracks[1].tags.track, Some(2));
}

#[test]
fn an_area_with_no_track_list_is_refused_rather_than_played_as_one_long_track() {
    let mut data = area_toc(&[(584, 100, 0, 150)], &["Only"]);
    data[SECTOR..SECTOR + 8].copy_from_slice(b"XXXXXXXX");

    let error = read_area(&data).expect_err("refused");

    assert!(
        error.message().contains("missing its track list"),
        "{}",
        error.message()
    );
}

#[test]
fn latin_one_text_survives_and_an_empty_field_reads_as_no_text() {
    let mut block = vec![0_u8; 32];
    block[0] = 0xC9;
    block[1] = b't';
    block[2] = b'e';

    assert_eq!(string_at(&block, 0).as_deref(), Some("Éte"));
    assert_eq!(string_at(&block, 8), None);
    assert_eq!(string_at(&block, 99), None);
}

#[test]
fn an_untitled_track_keeps_its_number_and_nothing_else() {
    let data = area_toc(&[(584, 100, 0, 150)], &[""]);

    let area = read_area(&data).expect("parses");

    assert_eq!(
        area.tracks[0].tags,
        TrackTags {
            track: Some(1),
            ..TrackTags::default()
        }
    );
}

/// The sectors of one audio frame that is stored as it is, under its own timecode.
fn plain_frame(timecode: u32, left: u8, right: u8) -> Vec<Vec<u8>> {
    let mut data = Vec::new();
    for _ in 0..FRAME_BYTES {
        data.push(left);
        data.push(right);
    }
    let mut sectors = Vec::new();
    let mut first = true;
    for chunk in data.chunks(2000) {
        let mut sector = vec![0_u8; SECTOR];
        sector[0] = 1 << 5 | u8::from(first) << 2;
        sector[1] = u8::from(first) << 7 | 2 << 3 | (chunk.len() >> 8) as u8;
        sector[2] = (chunk.len() & 0xFF) as u8;
        let mut at = 3;
        if first {
            sector[3] = 0;
            sector[4] = (timecode / 75) as u8;
            sector[5] = (timecode % 75) as u8;
            at = 6;
        }
        sector[at..at + chunk.len()].copy_from_slice(chunk);
        sectors.push(sector);
        first = false;
    }
    sectors
}

const AREA_LSN: usize = 520;
const AUDIO_LSN: usize = 524;

/// A disc of two tracks, each of two plain frames.
fn image() -> Vec<u8> {
    let mut audio = Vec::new();
    for frame in 0..4_u32 {
        audio.extend(plain_frame(frame, frame as u8, 0x80 | frame as u8));
    }
    let per_frame = audio.len() / 4;
    let length = (per_frame * 2) as u32;
    let start = AUDIO_LSN as u32;
    let mut out = vec![0_u8; AREA_LSN * SECTOR];
    let master = 510 * SECTOR;
    out[master..master + 8].copy_from_slice(b"SACDMTOC");
    out[master + 64..master + 68].copy_from_slice(&(AREA_LSN as u32).to_be_bytes());
    out[master + 84..master + 86].copy_from_slice(&4_u16.to_be_bytes());
    let text = master + SECTOR;
    out[text..text + 8].copy_from_slice(b"SACDText");
    out[text + 16..text + 18].copy_from_slice(&100_u16.to_be_bytes());
    out[text + 18..text + 20].copy_from_slice(&120_u16.to_be_bytes());
    out[text + 100..text + 112].copy_from_slice(b"Kind of Blue");
    out[text + 120..text + 131].copy_from_slice(b"Miles Davis");
    out.extend(area_toc(
        &[(start, length, 0, 2), (start + length, length, 2, 2)],
        &["One", "Two"],
    ));
    for sector in audio {
        out.extend(sector);
    }
    out
}

#[test]
fn a_disc_names_its_tracks_and_fills_in_the_albums_names() {
    let disc = Disc::open("/music/disc.iso", &image()).expect("opens");

    assert_eq!(disc.tracks().len(), 2);
    assert_eq!(disc.tracks()[1].number, 2);
    let tags = disc.tags(2);
    assert_eq!(tags.title.as_deref(), Some("Two"));
    assert_eq!(tags.artist.as_deref(), Some("Miles Davis"));
    assert_eq!(tags.album.as_deref(), Some("Kind of Blue"));
    assert!(is_image("/music/DISC.ISO"));
    assert!(!is_image("/music/disc.dsf"));
}

#[test]
fn a_disc_track_plays_its_own_frames_and_seeks_to_the_frame_holding_the_target() {
    let image = image();
    let disc = Disc::open("/music/disc.iso", &image).expect("opens");
    let mut reader = disc
        .reader(2, image)
        .map_err(|_| "refused")
        .expect("track two");
    let mut out = planes(2, reader.chunk_bytes());

    assert_eq!(reader.total_bytes_per_channel(), FRAME_BYTES as u64 * 2);
    assert_eq!(reader.read(&mut out), Ok(FRAME_BYTES));
    assert_eq!((out[0][0], out[1][FRAME_BYTES - 1]), (2, 0x82));
    assert_eq!(reader.read(&mut out), Ok(FRAME_BYTES));
    assert_eq!((out[0][0], out[1][0]), (3, 0x83));
    assert_eq!(reader.read(&mut out), Ok(0));

    assert_eq!(
        reader.seek(FRAME_BYTES as u64 + 17),
        Ok(FRAME_BYTES as u64)
    );
    assert_eq!(reader.read(&mut out), Ok(FRAME_BYTES));
    assert_eq!(out[0][0], 3);
    assert_eq!(reader.seek(5), Ok(0));
    assert_eq!(reader.read(&mut out), Ok(FRAME_BYTES));
    assert_eq!(out[0][0], 2);
}

#[test]
fn a_track_the_disc_does_not_have_and_an_image_that_is_none_are_refused() {
    let image = image();
    let disc = Disc::open("/music/disc.iso", &image).expect("opens");

    assert!(matches!(
        disc.reader(9, image).map(|_| ()),
        Err(DiscError::NoTrack { number: 9, .. })
    ));
    assert!(matches!(
        Disc::open("/music/disc.iso", &vec![0; 520 * SECTOR]).map(|_| ()),
        Err(TocError::NoMasterToc)
    ));
    assert!(matches!(
        Disc::open("/music/disc.iso", b"not a disc").map(|_| ()),
        Err(TocError::Truncated)
    ));
}

#[test]
fn a_disc_image_lists_its_tracks_like_a_folder() {
    let entries = list_disc("/music/disc.iso", &image()).expect("lists");

    let names: Vec<&str> = entries.iter().map(|entry| entry.name.as_str()).collect();
    assert_eq!(names.len(), 3);
    assert_eq!(names[0], "..");
    assert_eq!(entries[1].title.as_deref(), Some(" 1. One"));
    assert_eq!(entries[2].title.as_deref(), Some(" 2. Two"));
    let track = entries[2].kind.track().expect("a recording");
    assert_eq!(
        (track.path.as_str(), track.number),
        ("/music/disc.iso", Some(2))
    );
    assert!(list_disc("/music/disc.iso", b"not a disc").is_err());
}

#[test]
fn an_image_that_ends_early_plays_what_it_holds_and_then_says_where_it_ends() {
    let whole = image();
    let disc = Disc::open("/music/disc.iso", &whole).expect("opens");
    let last = whole.len() / SECTOR - 1;
    let mut reader = disc
        .reader(2, whole[..last * SECTOR].to_vec())
        .map_err(|_| "refused")
        .expect("track two");
    let mut out = planes(2, reader.chunk_bytes());

    assert_eq!(reader.read(&mut out), Ok(FRAME_BYTES));
    assert_eq!(
        reader.read(&mut out),
        Err(ReadError::Sector { lsn: last as u32 })
    );
    assert_eq!(reader.read(&mut out), Ok(0));
    assert_eq!(reader.read(&mut out), Ok(0));
}

#[test]
fn reading_goes_on_with_the_frame_behind_one_that_does_not_decode() {
    let mut image = image();
    let disc = Disc::open("/music/disc.iso", &image).expect("opens");
    let per_frame = plain_frame(2, 2, 0x82).len();
    let from = (AUDIO_LSN + per_frame * 2) * SECTOR;
    image[from..from + per_frame * SECTOR].fill(0);
    image[from..from + SECTOR].copy_from_slice(&sector(&[(true, 100)], 2, 1, 0x7F));
    let mut reader = disc
        .reader(2, image)
        .map_err(|_| "refused")
        .expect("track two");
    let mut out = planes(2, reader.chunk_bytes());

    assert!(matches!(
        reader.read(&mut out),
        Err(ReadError::Dst { track: 2, frame: 2, .. })
    ));
    assert_eq!(reader.read(&mut out), Ok(FRAME_BYTES));
    assert_eq!((out[0][0], out[1][0]), (3, 0x83));
    assert_eq!(reader.read(&mut out), Ok(0));
}
