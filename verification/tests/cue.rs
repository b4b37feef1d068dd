//! Cue sheets: parsing, times, and finding the sheet that splits a file.

use dsd_rust::reader::cue::{
    is_cue, parse, places_in, sheet_for, sheets_in, text_of, tokenise, CueError, CueTime, CueTrack,
    Sheet, SheetFile,
};

const SHEET: &str = r#"PERFORMER "Miles Davis"
TITLE "Kind of Blue"
FILE "album.dff" WAVE
  TRACK 01 AUDIO
    TITLE "So What"
    INDEX 01 00:00:00
  TRACK 02 AUDIO
    TITLE "Freddie Freeloader"
    PERFORMER "The Sextet"
    INDEX 00 09:20:00
    INDEX 01 09:22:37
  TRACK 03 AUDIO
    TITLE "Blue in Green"
    INDEX 01 19:00:00
"#;

fn tracks(text: &str) -> Vec<CueTrack> {
    parse(text, "/music", &Vec::new()).expect("parses")
}

#[test]
fn each_track_runs_from_its_own_index_to_the_next_ones() {
    let tracks = tracks(SHEET);

    assert_eq!(tracks.len(), 3);
    assert_eq!(tracks[0].start, CueTime(0));
    assert_eq!(tracks[0].end, Some(CueTime(9 * 60 * 75 + 22 * 75 + 37)));
    assert_eq!(tracks[1].start, CueTime(9 * 60 * 75 + 22 * 75 + 37));
    assert_eq!(tracks[1].end, Some(CueTime(19 * 60 * 75)));
    assert_eq!(tracks[2].end, None);
    assert_eq!(tracks[0].file, "/music/album.dff");
}

#[test]
fn a_track_takes_the_albums_names_where_it_gives_none_of_its_own() {
    let tracks = tracks(SHEET);

    assert_eq!(tracks[0].tags.title.as_deref(), Some("So What"));
    assert_eq!(tracks[0].tags.artist.as_deref(), Some("Miles Davis"));
    assert_eq!(tracks[0].tags.album.as_deref(), Some("Kind of Blue"));
    assert_eq!(tracks[0].tags.track, Some(1));
    assert_eq!(tracks[1].tags.artist.as_deref(), Some("The Sextet"));
}

#[test]
fn a_data_track_is_skipped_and_the_audio_either_side_keeps_its_number() {
    let text = "FILE \"album.flac\" WAVE\n\
                TRACK 01 AUDIO\nINDEX 01 00:00:00\n\
                TRACK 02 MODE1/2048\nINDEX 01 05:00:00\n\
                TRACK 03 AUDIO\nINDEX 01 06:00:00\n";

    let tracks = tracks(text);

    let numbers: Vec<u32> = tracks.iter().map(|track| track.number).collect();
    assert_eq!(numbers, [1, 3]);
    assert_eq!(tracks[0].end, Some(CueTime(6 * 60 * 75)));
}

#[test]
fn a_track_does_not_run_on_into_the_next_file_the_sheet_names() {
    let text = "FILE \"one.dsf\" WAVE\nTRACK 01 AUDIO\nINDEX 01 00:00:00\n\
                FILE \"two.dsf\" WAVE\nTRACK 02 AUDIO\nINDEX 01 00:00:00\n";

    let tracks = tracks(text);

    assert_eq!(tracks[0].end, None);
    assert_eq!(tracks[0].file, "/music/one.dsf");
    assert_eq!(tracks[1].file, "/music/two.dsf");
}

#[test]
fn a_cue_frame_is_a_whole_number_of_dsd_bytes_and_pcm_frames() {
    let one_frame = CueTime(1);

    assert_eq!(one_frame.dsd_bytes(2_822_400), 4_704);
    assert_eq!(one_frame.dsd_bytes(11_289_600), 18_816);
    assert_eq!(one_frame.pcm_frames(44_100), 588);
    assert_eq!(one_frame.pcm_frames(192_000), 2_560);
}

#[test]
fn a_time_with_no_frame_field_still_parses() {
    assert_eq!(CueTime::parse("01:30").expect("parses"), CueTime(90 * 75));
    assert_eq!(
        CueTime::parse("100:00:00").expect("parses").0,
        100 * 60 * 75
    );
    assert!(CueTime::parse("halfway").is_err());
}

#[test]
fn quoted_arguments_stay_whole_and_bare_ones_split_on_spaces() {
    assert_eq!(
        tokenise("  FILE \"a long name.dff\" WAVE  "),
        ["FILE", "a long name.dff", "WAVE"]
    );
    assert_eq!(tokenise("TRACK 01 AUDIO"), ["TRACK", "01", "AUDIO"]);
    assert!(tokenise("   ").is_empty());
}

fn sheet_file(path: &str, text: &str, present: &[&str]) -> SheetFile {
    SheetFile {
        path: path.to_owned(),
        bytes: text.as_bytes().to_vec(),
        present: present.iter().map(|place| (*place).to_owned()).collect(),
    }
}

#[test]
fn a_sheet_is_found_from_the_audio_file_it_names() {
    let sheets = sheets_in(&vec![sheet_file(
        "/music/album.cue",
        SHEET,
        &["/music/album.dff"],
    )]);

    let sheet = sheet_for("/music/album.dff", &sheets).expect("sheet");

    assert_eq!(sheet.path, "/music/album.cue");
    assert_eq!(sheet.track(2).expect("track").number, 2);
    assert!(sheet.track(9).is_none());
    assert!(is_cue(&sheet.path));
}

#[test]
fn a_sheet_naming_a_container_that_was_converted_finds_the_file_beside_it() {
    let text = "FILE \"album.wav\" WAVE\nTRACK 01 AUDIO\nINDEX 01 00:00:00\n";
    assert!(places_in(text, "/music").contains(&"/music/album.dsf".to_owned()));

    let sheet = Sheet::read(
        "/music/album.cue",
        text.as_bytes(),
        &vec!["/music/album.dsf".to_owned()],
    )
    .expect("reads");

    assert_eq!(sheet.tracks[0].file, "/music/album.dsf");
    assert!(sheet.covers("/music/album.dsf"));
    assert_eq!(sheet.tracks_in("/music/album.dsf").len(), 1);
    assert!(sheet.tracks_in("/music/other.dsf").is_empty());
}

#[test]
fn a_file_with_no_sheet_beside_it_finds_none() {
    assert!(sheet_for("/music/album.dff", &Vec::new()).is_none());
}

#[test]
fn sheets_come_in_the_order_of_their_paths_and_a_broken_one_drops_out() {
    let text = "FILE \"a.dsf\" WAVE\nTRACK 01 AUDIO\nINDEX 01 00:00:00\n";
    let sheets = sheets_in(&vec![
        sheet_file("/m/b.cue", text, &[]),
        sheet_file("/m/c.cue", "TRACK 01 AUDIO\nINDEX 01 zz\n", &[]),
        sheet_file("/m/a.cue", text, &[]),
    ]);

    let paths: Vec<&str> = sheets.iter().map(|sheet| sheet.path.as_str()).collect();
    assert_eq!(paths, ["/m/a.cue", "/m/b.cue"]);
}

#[test]
fn a_sheet_too_large_to_be_one_is_refused() {
    let raw = vec![b' '; 0x40_0001];

    let error = Sheet::read("/m/a.cue", &raw, &Vec::new()).expect_err("refused");

    assert!(matches!(error, CueError::TooLarge));
}

#[test]
fn a_sheet_that_is_not_utf8_is_read_as_latin_one() {
    assert_eq!(text_of(b"TITLE \"\xC9t\xE9\""), "TITLE \"Ét\u{E9}\"");
    assert_eq!(text_of("\u{FEFF}TITLE".as_bytes()), "TITLE");
}

#[test]
fn a_track_without_a_start_leaves_the_one_before_it_to_end_at_the_next_that_has_one() {
    let tracks = tracks(
        "FILE \"a.dsf\" WAVE\nTRACK 01 AUDIO\nINDEX 01 00:00:00\nTRACK 02 AUDIO\n\
         TRACK 03 AUDIO\nINDEX 01 06:00:00\n",
    );

    let numbers: Vec<u32> = tracks.iter().map(|track| track.number).collect();
    assert_eq!(numbers, [1, 3]);
    assert_eq!(tracks[0].start, CueTime(0));
    assert_eq!(tracks[0].end, Some(CueTime(27_000)));
    assert_eq!(tracks[1].start, CueTime(27_000));
    assert_eq!(tracks[1].end, None);
}
