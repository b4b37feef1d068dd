//! From paths to recordings.

use dsd_rust::reader::cue::{Sheet, SheetFile};
use dsd_rust::reader::open::audio_of;
use dsd_rust::reader::{
    cue, open, tags_of, tracks_of, OpenError, Source, TrackRef, DOP_BYTES_PER_FRAME,
};
use dsd_rust::text::{contains, decimal_of, parse_u64};

const BLOCK: usize = 8;

/// DSD bytes per channel one cue frame holds at DSD64.
const CUE_FRAME_BYTES: u64 = 4_704;

const SHEET: &str = "TITLE \"Kind of Blue\"\n\
                     PERFORMER \"Miles Davis\"\n\
                     FILE \"side.dsf\" WAVE\n\
                     TRACK 01 AUDIO\n  TITLE \"One\"\n  INDEX 01 00:00:00\n\
                     TRACK 02 AUDIO\n  TITLE \"Two\"\n  INDEX 01 00:00:01\n\
                     TRACK 03 AUDIO\n  TITLE \"Three\"\n  INDEX 01 00:00:02\n";

fn dsf_file(bits_per_sample: u32, samples_per_channel: u64, blocks: usize) -> Vec<u8> {
    let data_bytes = BLOCK * 2 * blocks;
    let mut file = Vec::new();
    file.extend_from_slice(b"DSD ");
    file.extend_from_slice(&28_u64.to_le_bytes());
    file.extend_from_slice(&0_u64.to_le_bytes());
    file.extend_from_slice(&0_u64.to_le_bytes());
    file.extend_from_slice(b"fmt ");
    file.extend_from_slice(&52_u64.to_le_bytes());
    for field in [1_u32, 0, 2, 2, 2_822_400, bits_per_sample] {
        file.extend_from_slice(&field.to_le_bytes());
    }
    file.extend_from_slice(&samples_per_channel.to_le_bytes());
    file.extend_from_slice(&(BLOCK as u32).to_le_bytes());
    file.extend_from_slice(&0_u32.to_le_bytes());
    file.extend_from_slice(b"data");
    file.extend_from_slice(&((data_bytes + 12) as u64).to_le_bytes());
    for block in 0..blocks {
        for channel in 0..2_u8 {
            for byte in 0..BLOCK {
                let index = (block * BLOCK + byte) as u8;
                file.push(if index as usize >= 12 {
                    0x69
                } else {
                    index | channel << 6
                });
            }
        }
    }
    file
}

/// A DSF holding three cue frames of audio.
fn side() -> Vec<u8> {
    let blocks = (CUE_FRAME_BYTES as usize * 3).div_ceil(BLOCK);
    let samples = (blocks * BLOCK * 8) as u64;
    dsf_file(8, samples, blocks)
}

fn present(paths: &[&str]) -> Vec<String> {
    paths.iter().map(|path| (*path).to_owned()).collect()
}

/// The sheet beside the file, splitting it in three.
fn beside() -> Vec<Sheet> {
    cue::sheets_in(&vec![SheetFile {
        path: "/music/side.cue".to_owned(),
        bytes: SHEET.as_bytes().to_vec(),
        present: present(&["/music/side.dsf"]),
    }])
}

fn tracks() -> Vec<TrackRef> {
    tracks_of("/music/side.dsf", &[], &Vec::new(), &beside()).expect("lists")
}

fn opened(track: &TrackRef) -> Source {
    open(
        track,
        SHEET.as_bytes().to_vec(),
        &present(&["/music/side.dsf"]),
        side(),
    )
    .map_err(|error| error.message())
    .expect("opens")
}

#[test]
fn a_file_a_sheet_splits_opens_as_the_tracks_the_sheet_names() {
    let tracks = tracks();

    assert_eq!(tracks.len(), 3);
    assert!(tracks.iter().all(|track| track.path == "/music/side.cue"));
    assert_eq!(tracks[1].number, Some(2));
}

#[test]
fn each_cue_track_carries_its_own_stretch_of_the_file_and_the_sheets_names() {
    let tracks = tracks();

    let second = opened(&tracks[1]);

    assert_eq!(second.total_frames(), CUE_FRAME_BYTES / DOP_BYTES_PER_FRAME);
    assert_eq!(second.container(), "DSF");
    assert_eq!(second.tags().title.as_deref(), Some("Two"));
    assert_eq!(second.tags().artist.as_deref(), Some("Miles Davis"));
    assert_eq!(second.tags().album.as_deref(), Some("Kind of Blue"));
    assert_eq!(second.tags().track, Some(2));
}

#[test]
fn the_last_cue_track_runs_to_the_end_of_the_file() {
    let tracks = tracks();

    let last = opened(&tracks[2]);

    assert_eq!(last.total_frames(), CUE_FRAME_BYTES / DOP_BYTES_PER_FRAME);
}

#[test]
fn a_cue_track_reads_the_bytes_that_stretch_of_the_file_holds() {
    let tracks = tracks();
    let whole = {
        let track = TrackRef::file("/music/side.dsf".to_owned());
        let mut source = open(&track, side(), &Vec::new(), Vec::new())
            .map_err(|error| error.message())
            .expect("opens");
        let mut out = Vec::new();
        while source.read(&mut out).expect("reads") > 0 {}
        out
    };

    let mut second = opened(&tracks[1]);
    let mut out = Vec::new();
    while second.read(&mut out).expect("reads") > 0 {}

    let frames = (CUE_FRAME_BYTES / DOP_BYTES_PER_FRAME) as usize;
    let channels = 2;
    assert_eq!(out, whole[frames * channels..frames * 2 * channels]);
}

#[test]
fn a_file_takes_only_its_own_share_of_a_sheet_that_names_several() {
    let text = "FILE \"one.dsf\" WAVE\nTRACK 01 AUDIO\nINDEX 01 00:00:00\n\
                FILE \"two.dsf\" WAVE\nTRACK 02 AUDIO\nINDEX 01 00:00:00\n";
    let places = present(&["/music/one.dsf", "/music/two.dsf"]);
    let sheets = cue::sheets_in(&vec![SheetFile {
        path: "/music/album.cue".to_owned(),
        bytes: text.as_bytes().to_vec(),
        present: places.clone(),
    }]);

    let first = tracks_of("/music/one.dsf", &[], &Vec::new(), &sheets).expect("lists");
    let second = tracks_of("/music/two.dsf", &[], &Vec::new(), &sheets).expect("lists");

    assert_eq!(first.len(), 1);
    assert_eq!(first[0].number, Some(1));
    assert_eq!(second.len(), 1);
    assert_eq!(second[0].number, Some(2));
    assert_eq!(
        tracks_of("/music/album.cue", text.as_bytes(), &places, &Vec::new())
            .expect("lists")
            .len(),
        2
    );
}

#[test]
fn a_file_with_no_sheet_beside_it_stays_one_recording() {
    let path = "/music/track.dsf";

    let tracks = tracks_of(path, &[], &Vec::new(), &Vec::new()).expect("lists");

    assert_eq!(tracks, [TrackRef::file(path.to_owned())]);
}

#[test]
fn a_disc_track_names_itself_by_file_and_number() {
    let track = TrackRef::of_disc("/music/disc.iso".to_owned(), 3);

    assert_eq!(track.label(), "disc.iso track 3");
    assert_eq!(track.to_string(), "/music/disc.iso track 3");
}

#[test]
fn a_plain_file_names_itself_by_file_alone() {
    let track = TrackRef::file("/music/track.dsf".to_owned());

    assert_eq!(track.label(), "track.dsf");
    assert_eq!(track.to_string(), "/music/track.dsf");
}

#[test]
fn the_audio_of_a_cue_track_is_the_file_its_sheet_leads_to() {
    let places = present(&["/music/side.dsf"]);

    assert_eq!(
        audio_of(&tracks()[0], SHEET.as_bytes(), &places).as_deref(),
        Some("/music/side.dsf")
    );
    assert_eq!(
        audio_of(&TrackRef::file("/music/side.dsf".to_owned()), &[], &places),
        None
    );
}

#[test]
fn tags_are_read_the_way_opening_reads_them() {
    let tags = tags_of(
        &tracks()[2],
        SHEET.as_bytes().to_vec(),
        &present(&["/music/side.dsf"]),
        side(),
    )
    .map_err(|error| error.message())
    .expect("reads");

    assert_eq!(tags.title.as_deref(), Some("Three"));
}

#[test]
fn a_file_that_is_empty_or_of_no_known_kind_is_refused_with_its_name() {
    let track = TrackRef::file("/music/track.dsf".to_owned());

    let empty = open(&track, Vec::new(), &Vec::new(), Vec::new()).map(|_| ());
    assert!(matches!(&empty, Err(OpenError::Empty { .. })));
    let message = empty.expect_err("refused").message();
    assert!(message.contains("/music/track.dsf"), "{message}");
    let unknown = open(&track, b"RIFFxxxxWAVE".to_vec(), &Vec::new(), Vec::new()).map(|_| ());
    assert!(unknown.is_err());
}

#[test]
fn numbers_read_back_from_their_decimals() {
    for value in [0, 7, 10, 75, 4_704, u64::MAX] {
        assert_eq!(parse_u64(&decimal_of(value)), Some(value));
    }
    assert_eq!(parse_u64("18446744073709551616"), None);
    assert!(contains("Cayin RU7", "RU"));
    assert!(!contains("Cayin RU7", "ru"));
}

fn drained(mut source: Source) -> Vec<i32> {
    let mut samples = Vec::new();
    while source.read(&mut samples).expect("reads") > 0 {}
    samples
}

#[test]
fn tracks_that_meet_play_the_file_on_without_a_gap() {
    let file = TrackRef::file("/music/side.dsf".to_owned());
    let whole = open(&file, side(), &Vec::new(), Vec::new()).expect("opens");
    let mut parts = Vec::new();
    for track in &tracks() {
        parts.extend(drained(opened(track)));
    }

    assert_eq!(parts, drained(whole));
}
