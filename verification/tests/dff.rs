//! DSDIFF files.

use dsd_rust::dsd::DsdRate;
use dsd_rust::reader::dff::{DffError, DffReader};
use dsd_rust::reader::DsdSource;

fn chunk(id: &[u8; 4], body: &[u8]) -> Vec<u8> {
    let mut out = Vec::from(*id);
    out.extend_from_slice(&(body.len() as u64).to_be_bytes());
    out.extend_from_slice(body);
    if body.len() % 2 == 1 {
        out.push(0);
    }
    out
}

fn dff_file_with(audio_id: &[u8; 4], samples: &[u8]) -> Vec<u8> {
    let mut properties = Vec::from(*b"SND ");
    properties.extend_from_slice(&chunk(b"FS  ", &2_822_400_u32.to_be_bytes()));
    properties.extend_from_slice(&chunk(b"CHNL", &[0, 2, b'S', b'L', b'S', b'R']));
    properties.extend_from_slice(&chunk(b"CMPR", b"DSD \x0enot compressed"));

    let mut body = Vec::from(*b"DSD ");
    body.extend_from_slice(&chunk(b"FVER", &[1, 5, 0, 0]));
    body.extend_from_slice(&chunk(b"COMT", &[0, 0]));
    body.extend_from_slice(&chunk(b"PROP", &properties));
    body.extend_from_slice(&chunk(audio_id, samples));

    let mut file = Vec::from(*b"FRM8");
    file.extend_from_slice(&(body.len() as u64).to_be_bytes());
    file.extend_from_slice(&body);
    file
}

fn dff_file(samples: &[u8]) -> Vec<u8> {
    dff_file_with(b"DSD ", samples)
}

/// Put an edited-master information chunk after the audio, where the format allows it and
/// a walk that stopped at the sound data would never see it.
fn dff_file_tagged_after_the_audio(samples: &[u8]) -> Vec<u8> {
    let mut text = Vec::from(11_u32.to_be_bytes());
    text.extend_from_slice(b"Peace Piece");
    let diin = chunk(b"DIIN", &chunk(b"DITI", &text));

    let mut file = dff_file(samples);
    file.extend_from_slice(&diin);
    let body = (file.len() - 12) as u64;
    file[4..12].copy_from_slice(&body.to_be_bytes());
    file
}

#[test]
fn interleaved_bytes_are_split_into_channel_planes() {
    let samples: Vec<u8> = (0..64_u8).collect();
    let mut reader = DffReader::new(dff_file(&samples)).expect("parses");

    assert_eq!(reader.format().rate, DsdRate::new(2_822_400));
    assert_eq!(reader.format().channels, 2);
    assert_eq!(reader.total_bytes_per_channel(), 32);

    let mut planes: Vec<Box<[u8]>> = vec![vec![0; reader.chunk_bytes()].into(); 2];
    let count = reader.read(&mut planes).expect("reads");

    assert_eq!(count, 32);
    assert_eq!(
        planes[0][..32],
        samples.iter().copied().step_by(2).collect::<Vec<_>>()[..]
    );
    assert_eq!(
        planes[1][..32],
        samples[1..].iter().copied().step_by(2).collect::<Vec<_>>()[..]
    );
    assert_eq!(reader.read(&mut planes).expect("reads"), 0);
}

#[test]
fn a_seek_lands_on_the_exact_byte_and_reads_on_from_there() {
    let samples: Vec<u8> = (0..64_u8).collect();
    let mut reader = DffReader::new(dff_file(&samples)).expect("parses");
    let mut planes: Vec<Box<[u8]>> = vec![vec![0; reader.chunk_bytes()].into(); 2];

    let reached = reader.seek(10).expect("seeks");

    assert_eq!(reached, 10);
    let count = reader.read(&mut planes).expect("reads");
    assert_eq!(count, 22);
    assert_eq!(
        planes[0][..count],
        samples[20..].iter().copied().step_by(2).collect::<Vec<_>>()[..]
    );
}

#[test]
fn a_seek_past_the_end_stops_at_the_end_of_the_audio() {
    let samples: Vec<u8> = (0..64_u8).collect();
    let mut reader = DffReader::new(dff_file(&samples)).expect("parses");
    let mut planes: Vec<Box<[u8]>> = vec![vec![0; reader.chunk_bytes()].into(); 2];

    let reached = reader.seek(u64::MAX).expect("seeks");

    assert_eq!(reached, 32);
    assert_eq!(reader.read(&mut planes).expect("reads"), 0);
}

#[test]
fn an_information_chunk_after_the_audio_still_names_the_recording() {
    let samples: Vec<u8> = (0..64_u8).collect();
    let file = dff_file_tagged_after_the_audio(&samples);

    let mut reader = DffReader::new(file).expect("parses");

    assert_eq!(reader.tags().title.as_deref(), Some("Peace Piece"));
    // The read position still starts at the audio, not at whatever the walk ended on.
    let mut planes: Vec<Box<[u8]>> = vec![vec![0; reader.chunk_bytes()].into(); 2];
    let count = reader.read(&mut planes).expect("reads");
    assert_eq!(count, 32);
    assert_eq!(planes[0][0], 0);
}

#[test]
fn a_file_ending_mid_chunk_after_the_audio_still_plays() {
    let samples: Vec<u8> = (0..64_u8).collect();
    let mut file = dff_file_tagged_after_the_audio(&samples);
    file.truncate(file.len() - 6);

    let mut reader = DffReader::new(file).expect("parses");

    assert_eq!(reader.total_bytes_per_channel(), 32);
    let mut planes: Vec<Box<[u8]>> = vec![vec![0; reader.chunk_bytes()].into(); 2];
    assert_eq!(reader.read(&mut planes).expect("reads"), 32);
}

#[test]
fn dst_compression_is_rejected_with_a_clear_message() {
    let file = dff_file_with(b"DST ", &[0; 8]);

    let error = DffReader::new(file).map(|_| ()).expect_err("rejects");

    assert!(
        error.message().contains("DST compressed"),
        "{}",
        error.message()
    );
}

#[test]
fn a_file_that_ends_in_its_header_is_refused() {
    let file = dff_file(&[0; 8]);

    assert_eq!(
        DffReader::new(file[..6].to_vec()).map(|_| ()),
        Err(DffError::Truncated)
    );
}

#[test]
fn a_compression_that_is_not_known_is_refused_by_its_bytes() {
    let mut file = dff_file(&[0; 4]);
    let at = file
        .windows(4)
        .position(|bytes| bytes == b"CMPR")
        .expect("has a CMPR chunk");
    file[at + 12..at + 16].copy_from_slice(b"DST ");

    let error = DffReader::new(file).map(|_| ()).expect_err("rejects");

    assert_eq!(
        error.message(),
        "unsupported DSDIFF compression [68, 83, 84, 32]"
    );
}
