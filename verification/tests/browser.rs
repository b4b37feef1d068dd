//! The file pane, the keys and the transport.

use dsd_rust::path::same_path;
use dsd_rust::reader::cue::{sheets_in, Sheet, SheetFile};
use dsd_rust::reader::{tags_of, TrackRef};
use dsd_rust::tui::browser::{
    kind_of, list_dir, list_file, shape_of, Browser, Entry, Found, Kind, Shape,
};
use dsd_rust::tui::engine::{Action, Command, Deck, State};
use dsd_rust::tui::{go_up, on_key, open_selection, Key, Opened, Wish};

const SHEET: &str = "TITLE \"Kind of Blue\"\nFILE \"side.dsf\" WAVE\n\
                     TRACK 01 AUDIO\n  TITLE \"So What\"\n  INDEX 01 00:00:00\n\
                     TRACK 02 AUDIO\n  TITLE \"Blue in Green\"\n  INDEX 01 00:00:01\n";

const DIR: &str = "/music/jazz";

fn sheets() -> Vec<Sheet> {
    sheets_in(&vec![SheetFile {
        path: format!("{DIR}/side.cue"),
        bytes: SHEET.as_bytes().to_vec(),
        present: vec![format!("{DIR}/side.dsf")],
    }])
}

/// A DSF file with an ID3v2.3 tag holding one title frame.
fn dsf_file_with_tag(title: &str) -> Vec<u8> {
    let mut file = Vec::new();
    file.extend_from_slice(b"DSD ");
    file.extend_from_slice(&28_u64.to_le_bytes());
    file.extend_from_slice(&0_u64.to_le_bytes());
    file.extend_from_slice(&0_u64.to_le_bytes());
    file.extend_from_slice(b"fmt ");
    file.extend_from_slice(&52_u64.to_le_bytes());
    for field in [1_u32, 0, 2, 2, 2_822_400, 8] {
        file.extend_from_slice(&field.to_le_bytes());
    }
    file.extend_from_slice(&96_u64.to_le_bytes());
    file.extend_from_slice(&8_u32.to_le_bytes());
    file.extend_from_slice(&0_u32.to_le_bytes());
    file.extend_from_slice(b"data");
    file.extend_from_slice(&(32_u64 + 12).to_le_bytes());
    file.extend_from_slice(&[0x69; 32]);
    let mut frames = Vec::new();
    frames.extend_from_slice(b"TIT2");
    frames.extend_from_slice(&((title.len() + 1) as u32).to_be_bytes());
    frames.extend_from_slice(&[0, 0, 0]);
    frames.extend_from_slice(title.as_bytes());
    let start = file.len() as u64;
    file[20..28].copy_from_slice(&start.to_le_bytes());
    file.extend_from_slice(b"ID3");
    file.extend_from_slice(&[3, 0, 0]);
    for shift in [21, 14, 7, 0] {
        file.push(((frames.len() as u32 >> shift) & 0x7F) as u8);
    }
    file.extend_from_slice(&frames);
    file
}

fn found(name: &str, is_dir: bool) -> Found {
    Found {
        name: name.to_owned(),
        path: format!("{DIR}/{name}"),
        is_dir,
        tags: None,
    }
}

/// What a recording in the folder says it is.
fn with_tags(name: &str, bytes: Vec<u8>) -> Found {
    let track = TrackRef::file(format!("{DIR}/{name}"));
    Found {
        tags: tags_of(&track, bytes, &Vec::new(), Vec::new()).ok(),
        ..found(name, false)
    }
}

fn side() -> Vec<Entry> {
    list_dir(
        DIR,
        &vec![found("side.dsf", false), found("side.cue", false)],
        &sheets(),
    )
}

fn names(entries: &[Entry]) -> Vec<&str> {
    entries.iter().map(|entry| entry.name.as_str()).collect()
}

#[test]
fn a_file_a_sheet_splits_lists_as_something_to_open_and_the_sheet_itself_is_not_listed() {
    let entries = side();

    assert_eq!(names(&entries), ["..", "side.dsf"]);
    assert_eq!(entries[1].kind, Kind::Disc);
}

#[test]
fn opening_a_file_a_sheet_splits_lists_the_tracks_the_sheet_names() {
    let mut browser = Browser::open(DIR.to_owned(), Ok(side()));
    browser.move_to(0);

    let path = format!("{DIR}/side.dsf");
    assert_eq!(shape_of(&path, true), Shape::File);
    browser.enter(path.clone(), list_file(&path, &sheets()));

    let titles: Vec<Option<&str>> = browser
        .entries
        .iter()
        .map(|entry| entry.title.as_deref())
        .collect();
    assert_eq!(
        titles,
        [None, Some(" 1. So What"), Some(" 2. Blue in Green")]
    );
    let playlist = browser.playable();
    assert_eq!(playlist.len(), 2);
    assert!(playlist
        .iter()
        .all(|track| track.path == format!("{DIR}/side.cue")));
}

#[test]
fn going_back_up_from_a_file_a_sheet_splits_lands_in_its_folder() {
    let path = format!("{DIR}/side.dsf");
    let mut browser = Browser::open(path.clone(), list_file(&path, &sheets()));

    let parent = browser.entries[0].path.clone();
    browser.enter(parent, Ok(side()));

    assert_eq!(browser.dir, DIR);
    assert_eq!(browser.selected, 1);
}

fn fixture() -> Vec<Entry> {
    let files = [
        "b.dsf",
        "A.DFF",
        "c.flac",
        "notes.txt",
        ".hidden.dsf",
        "stray.cue",
    ];
    let mut seen = vec![found("album", true)];
    for name in files {
        seen.push(found(name, false));
    }
    list_dir(DIR, &seen, &Vec::new())
}

#[test]
fn only_folders_and_playable_files_are_listed_folders_first() {
    assert_eq!(
        names(&fixture()),
        ["..", "album", "A.DFF", "b.dsf", "c.flac"]
    );
}

#[test]
fn a_disc_image_lists_as_something_to_open_rather_than_to_play() {
    let entries = list_dir(DIR, &vec![found("disc.iso", false)], &Vec::new());

    assert_eq!(entries[1].kind, Kind::Disc);
    assert!(entries[1].kind.opens());
}

#[test]
fn the_playlist_is_the_recordings_of_the_current_folder_in_pane_order() {
    let browser = Browser::open(DIR.to_owned(), Ok(fixture()));

    let files: Vec<_> = browser
        .playable()
        .into_iter()
        .map(|track| track.path)
        .collect();

    assert_eq!(
        files,
        [
            format!("{DIR}/A.DFF"),
            format!("{DIR}/b.dsf"),
            format!("{DIR}/c.flac")
        ]
    );
}

#[test]
fn descending_and_going_back_up_leaves_the_cursor_on_the_folder_just_left() {
    let mut browser = Browser::open(DIR.to_owned(), Ok(fixture()));
    browser.move_to(1);
    let album = browser.selection().expect("album row").path.clone();

    browser.enter(album.clone(), Ok(list_dir(&album, &Vec::new(), &Vec::new())));
    assert_eq!(browser.dir, album);
    browser.enter(DIR.to_owned(), Ok(fixture()));

    assert_eq!(browser.selection().expect("album row").path, album);
}

#[test]
fn a_tagged_file_lists_under_its_title_and_an_untagged_one_under_its_name() {
    let entries = list_dir(
        DIR,
        &vec![
            with_tags("01.dsf", dsf_file_with_tag("So What")),
            with_tags("02.dsf", b"not a dsd file at all".to_vec()),
        ],
        &Vec::new(),
    );

    let titles: Vec<Option<&str>> = entries.iter().map(|entry| entry.title.as_deref()).collect();
    assert_eq!(titles, [None, Some("So What"), None]);
}

#[test]
fn the_cursor_stops_at_the_ends_of_the_list() {
    let mut browser = Browser::open(DIR.to_owned(), Ok(fixture()));

    browser.move_by(-5);
    assert_eq!(browser.selected, 0);
    browser.move_by(99);
    assert_eq!(browser.selected, browser.entries.len() - 1);
}

#[test]
fn a_place_that_cannot_be_listed_shows_why_and_nothing_else() {
    let path = format!("{DIR}/b.dsf");
    let browser = Browser::open(path.clone(), list_file(&path, &Vec::new()));

    assert!(browser.entries.is_empty());
    assert_eq!(
        browser.error.as_deref(),
        Some("/music/jazz/b.dsf: holds one recording rather than a list of them")
    );
    assert!(browser.selection().is_none());
}

#[test]
fn the_root_has_no_way_out_and_the_same_letters_keep_the_order_they_were_found_in() {
    let seen = vec![found("B.dsf", false), found("b.dsf", false)];

    let entries = list_dir("/", &seen, &Vec::new());

    assert_eq!(names(&entries), ["B.dsf", "b.dsf"]);
    assert_eq!(kind_of("/x.mp3", false, &Vec::new()), None);
}

#[test]
fn opening_a_recording_queues_the_listing_from_it_on() {
    let mut browser = Browser::open(DIR.to_owned(), Ok(fixture()));
    browser.move_to(3);

    match open_selection(&browser) {
        Opened::Play { tracks, index } => {
            assert_eq!(tracks.len(), 3);
            assert_eq!(index, 1);
            assert_eq!(tracks[index].path, format!("{DIR}/b.dsf"));
        }
        other => panic!("{other:?}"),
    }
    browser.move_to(1);
    assert_eq!(
        open_selection(&browser),
        Opened::Enter(format!("{DIR}/album"))
    );
    assert_eq!(go_up(&browser).as_deref(), Some("/music"));
}

#[test]
fn keys_ask_for_what_the_hints_say() {
    assert_eq!(on_key(Key::Char('q'), false), Wish::Quit);
    assert_eq!(on_key(Key::Char('c'), true), Wish::Quit);
    assert_eq!(on_key(Key::Char('c'), false), Wish::Nothing);
    assert_eq!(on_key(Key::Up, false), Wish::MoveBy(-1));
    assert_eq!(on_key(Key::Char('j'), false), Wish::MoveBy(1));
    assert_eq!(on_key(Key::PageDown, false), Wish::MoveBy(10));
    assert_eq!(on_key(Key::Char(' '), false), Wish::Toggle);
    assert_eq!(on_key(Key::Char('p'), false), Wish::Skip(-1));
    assert_eq!(on_key(Key::Char(','), false), Wish::Seek(-5));
    assert_eq!(on_key(Key::Char('.'), false), Wish::Seek(5));
    assert_eq!(on_key(Key::Backspace, false), Wish::Leave);
    assert_eq!(on_key(Key::Enter, false), Wish::Open);
}

fn playlist() -> Vec<TrackRef> {
    ["a", "b", "c"]
        .iter()
        .map(|name| TrackRef::file((*name).to_owned()))
        .collect()
}

#[test]
fn a_playlist_plays_on_from_where_it_was_loaded_and_then_stops() {
    let mut deck = Deck::default();
    let load = Command::Load {
        tracks: playlist(),
        index: 1,
    };

    assert_eq!(deck.handle(load, false), Action::Play(1));
    assert_eq!(deck.state(false), State::Playing);
    assert_eq!(deck.watch(false, false), Action::Nothing);
    assert_eq!(deck.watch(true, false), Action::Play(2));
    assert_eq!(deck.watch(true, false), Action::Stop);
    assert_eq!(deck.state(false), State::Stopped);
    assert_eq!(deck.handle(Command::Toggle, false), Action::Play(2));
}

#[test]
fn commands_move_the_transport_only_where_there_is_somewhere_to_go() {
    let mut deck = Deck::default();
    assert_eq!(deck.handle(Command::Toggle, false), Action::End);
    assert_eq!(deck.handle(Command::Seek(5), false), Action::Nothing);
    let load = Command::Load {
        tracks: playlist(),
        index: 0,
    };
    deck.handle(load, false);

    assert_eq!(deck.handle(Command::Skip(-1), false), Action::Nothing);
    assert_eq!(deck.handle(Command::Skip(2), false), Action::Play(2));
    assert_eq!(deck.handle(Command::Toggle, false), Action::Pause(true));
    assert_eq!(deck.state(true), State::Paused);
    assert_eq!(deck.handle(Command::Seek(-5), false), Action::Seek(-5));
    assert_eq!(deck.watch(false, true), Action::Stall);
    assert_eq!(deck.watch(true, true), Action::Nothing);
    assert_eq!(deck.handle(Command::Stop, false), Action::Stop);
    deck.opened(true);
    assert_eq!(deck.handle(Command::Quit, false), Action::Quit);
}

#[test]
fn paths_are_compared_by_the_names_they_are_made_of() {
    assert!(same_path("/music/jazz", "/music//jazz/"));
    assert!(same_path("/music/./jazz", "/music/jazz"));
    assert!(!same_path("./jazz", "jazz"));
    assert!(!same_path("/music/jazz", "music/jazz"));
    assert!(!same_path("/music/jazz", "/music/jazz/album"));
    assert!(!same_path("/music/jazz", "/music/rock"));

    let mut browser = Browser::open(format!("{DIR}/album/"), Ok(Vec::new()));
    browser.enter(DIR.to_owned(), Ok(fixture()));
    assert_eq!(
        browser.selection().expect("album row").path,
        format!("{DIR}/album")
    );
}
