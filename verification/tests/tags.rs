//! ID3v2 tags, edited-master information and the lines made of them.

use dsd_rust::reader::tags::{parse_diin, read_id3v2, TrackTags};
use dsd_rust::report::{dop_rates, native_rates, tag_rows};

/// Build an ID3v2.3 frame holding ISO-8859-1 text.
fn frame(id: &[u8; 4], text: &str) -> Vec<u8> {
    let mut body = vec![0_u8];
    body.extend_from_slice(text.as_bytes());
    let mut out = Vec::new();
    out.extend_from_slice(id);
    out.extend_from_slice(&(body.len() as u32).to_be_bytes());
    out.extend_from_slice(&[0, 0]);
    out.extend_from_slice(&body);
    out
}

fn tag(version: u8, flags: u8, frames: Vec<u8>) -> Vec<u8> {
    let mut out = Vec::new();
    out.extend_from_slice(b"ID3");
    out.extend_from_slice(&[version, 0, flags]);
    let size = frames.len() as u32;
    for shift in [21, 14, 7, 0] {
        out.push(((size >> shift) & 0x7F) as u8);
    }
    out.extend_from_slice(&frames);
    out
}

fn read(bytes: Vec<u8>) -> TrackTags {
    read_id3v2(&bytes, 0)
}

#[test]
fn text_frames_become_the_four_fields_shown() {
    let mut frames = frame(b"TIT2", "Blue in Green");
    frames.extend(frame(b"TPE1", "Miles Davis"));
    frames.extend(frame(b"TALB", "Kind of Blue"));
    frames.extend(frame(b"TRCK", "3/5"));

    let tags = read(tag(3, 0, frames));

    assert_eq!(tags.title.as_deref(), Some("Blue in Green"));
    assert_eq!(tags.artist.as_deref(), Some("Miles Davis"));
    assert_eq!(tags.album.as_deref(), Some("Kind of Blue"));
    assert_eq!(tags.track, Some(3));
    assert_eq!(
        tags.headline().as_deref(),
        Some("Miles Davis — Blue in Green")
    );
    assert_eq!(tags.label().as_deref(), Some(" 3. Blue in Green"));
}

#[test]
fn a_file_with_no_tag_reads_as_no_tags() {
    let tags = read(b"not a tag at all".to_vec());

    assert_eq!(tags, TrackTags::default());
    assert_eq!(tags.headline(), None);
}

#[test]
fn utf16_text_with_a_byte_order_mark_is_decoded() {
    let mut body = vec![1_u8, 0xFF, 0xFE];
    for unit in "Água".encode_utf16() {
        body.extend_from_slice(&unit.to_le_bytes());
    }
    let mut frames = Vec::new();
    frames.extend_from_slice(b"TIT2");
    frames.extend_from_slice(&(body.len() as u32).to_be_bytes());
    frames.extend_from_slice(&[0, 0]);
    frames.extend_from_slice(&body);

    let tags = read(tag(3, 0, frames));

    assert_eq!(tags.title.as_deref(), Some("Água"));
}

#[test]
fn utf8_text_is_decoded_and_trailing_nulls_are_dropped() {
    let mut frames = Vec::new();
    let body = b"\x03Kind of Blue\0";
    frames.extend_from_slice(b"TALB");
    frames.extend_from_slice(&(body.len() as u32).to_be_bytes());
    frames.extend_from_slice(&[0, 0]);
    frames.extend_from_slice(body);

    let tags = read(tag(4, 0, frames));

    assert_eq!(tags.album.as_deref(), Some("Kind of Blue"));
}

#[test]
fn a_version_2_2_tag_uses_its_three_character_frame_ids() {
    let mut frames = Vec::new();
    let body = b"\x00So What";
    frames.extend_from_slice(b"TT2");
    frames.extend_from_slice(&[0, 0, body.len() as u8]);
    frames.extend_from_slice(body);

    let tags = read(tag(2, 0, frames));

    assert_eq!(tags.title.as_deref(), Some("So What"));
}

#[test]
fn an_unsynchronised_tag_is_restored_before_the_frames_are_read() {
    let mut frames = Vec::new();
    frames.extend_from_slice(b"TIT2");
    frames.extend_from_slice(&2_u32.to_be_bytes());
    frames.extend_from_slice(&[0, 0]);
    // A 0xFF byte of text, escaped the way an unsynchronised tag stores it.
    frames.extend_from_slice(&[0x00, 0xFF, 0x00]);

    let tags = read(tag(3, 0x80, frames));

    assert_eq!(tags.title.as_deref(), Some("\u{FF}"));
}

#[test]
fn padding_after_the_last_frame_ends_the_walk() {
    let mut frames = frame(b"TIT2", "Flamenco Sketches");
    frames.extend_from_slice(&[0; 64]);

    let tags = read(tag(3, 0, frames));

    assert_eq!(tags.title.as_deref(), Some("Flamenco Sketches"));
    assert_eq!(tags.artist, None);
}

#[test]
fn a_frame_running_past_the_tag_is_ignored_rather_than_panicking() {
    let mut frames = Vec::new();
    frames.extend_from_slice(b"TIT2");
    frames.extend_from_slice(&9_999_u32.to_be_bytes());
    frames.extend_from_slice(&[0, 0, 0]);

    let tags = read(tag(3, 0, frames));

    assert_eq!(tags, TrackTags::default());
}

#[test]
fn diin_sub_chunks_give_the_artist_and_title() {
    let mut body = Vec::new();
    for (id, text) in [(b"DIAR", "Bill Evans"), (b"DITI", "Peace Piece")] {
        body.extend_from_slice(id);
        body.extend_from_slice(&((text.len() + 4) as u64).to_be_bytes());
        body.extend_from_slice(&(text.len() as u32).to_be_bytes());
        body.extend_from_slice(text.as_bytes());
    }
    let mut tags = TrackTags::default();

    parse_diin(&body, &mut tags);

    assert_eq!(tags.artist.as_deref(), Some("Bill Evans"));
    assert_eq!(tags.title.as_deref(), Some("Peace Piece"));
}

#[test]
fn invalid_utf8_and_lone_surrogates_are_replaced_rather_than_refused() {
    let mut frames = Vec::new();
    let body = b"\x03a\xFFb";
    frames.extend_from_slice(b"TALB");
    frames.extend_from_slice(&(body.len() as u32).to_be_bytes());
    frames.extend_from_slice(&[0, 0]);
    frames.extend_from_slice(body);
    let body = [1_u8, 0xFF, 0xFE, 0x00, 0xD8, 0x41, 0x00];
    frames.extend_from_slice(b"TIT2");
    frames.extend_from_slice(&(body.len() as u32).to_be_bytes());
    frames.extend_from_slice(&[0, 0]);
    frames.extend_from_slice(&body);

    let tags = read(tag(4, 0, frames));

    assert_eq!(tags.album.as_deref(), Some("a\u{FFFD}b"));
    assert_eq!(tags.title.as_deref(), Some("\u{FFFD}A"));
}

#[test]
fn only_the_tags_a_file_has_make_lines() {
    let tags = TrackTags {
        title: Some("So What".to_owned()),
        track: Some(1),
        ..TrackTags::default()
    };

    assert_eq!(
        tag_rows(&tags),
        [("title", "So What".to_owned()), ("track", "1".to_owned())]
    );
}

#[test]
fn rates_are_listed_with_the_tier_they_carry() {
    assert_eq!(dop_rates(&vec![176_400, 352_800]), "176400/DSD64 352800/DSD128");
    assert_eq!(dop_rates(&Vec::new()), "none");
    assert_eq!(
        native_rates(&vec![11_289_600, 1_000_001, 12_288_000]),
        "352800/DSD256 384000/DSD256"
    );
}
