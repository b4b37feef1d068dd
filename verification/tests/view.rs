//! What the screen and the command line say of a session.

use dsd_rust::audio::AudioFormat;
use dsd_rust::dsd::{DsdFormat, DsdRate};
use dsd_rust::output::encoding::{Carrier, Encoding};
use dsd_rust::player::{
    capacity, clock, dropout_text, prefill, request_for, retries, route, seek_to, shared_refusal,
    stall_text, unadvertised_dop_rates, CarrierRates, Carries, Counters, DeviceInfo, Look,
    PlayOptions, Progress, Route, Sight, TrackInfo, Watch,
};
use dsd_rust::reader::tags::TrackTags;
use dsd_rust::reader::TrackRef;
use dsd_rust::tui::browser::Browser;
use dsd_rust::tui::engine::State;
use dsd_rust::tui::view::{
    debug_pane, debug_rows, footer, names, row_text, short_path, status_line, Figures, KEYS,
};

fn dsd128() -> AudioFormat {
    AudioFormat::Dsd(DsdFormat {
        rate: DsdRate::new(5_644_800),
        channels: 2,
    })
}

fn track() -> TrackInfo {
    TrackInfo {
        container: "DSF",
        tags: TrackTags::default(),
        format: dsd128(),
        total_frames: 42_336_000,
        bytes_per_channel: Some(84_672_000),
    }
}

fn device() -> DeviceInfo {
    DeviceInfo {
        carrier: "DoP",
        bits: 24,
        name: "Topping D50".to_owned(),
        pcm_rate: 352_800,
        buffer_frames: 512,
        transport: "integer",
        exclusive: true,
        mixing_disabled: true,
    }
}

fn figures() -> Figures {
    Figures {
        buffer_ms: format!("{:.1}", 512.0 * 1000.0 / 352_800.0),
        queue_percent: format!("{:>3.0}", 44_100.0 / 88_200.0 * 100.0),
        silence_ms: "0".to_owned(),
        volume_percent: None,
    }
}

fn progress() -> Progress {
    Progress {
        frames_played: 10_584_000,
        underrun_frames: 0,
        queued_frames: 44_100,
        queue_frames: 88_200,
    }
}

fn screen(device: &DeviceInfo) -> String {
    let lines: Vec<String> = debug_rows(device, &track(), progress(), &figures())
        .iter()
        .map(|line| line.line())
        .collect();
    lines.join("\n")
}

#[test]
fn a_playing_track_shows_its_transport_and_debug_counters() {
    let playing = TrackRef::file("/music/track.dsf".to_owned());
    let name = names(Some(&playing), &TrackTags::default()).0;
    let format = dsd128().describe("5.6448");
    let status = status_line(State::Playing, 30, 120, 0, 1);
    let screen = screen(&device());

    assert!(name.contains("track.dsf"), "{name}");
    assert!(format.contains("DSD128"), "{format}");
    assert!(status.contains("playing   0:30 / 2:00"), "{status}");
    assert!(
        screen.contains("Topping D50  exclusive, mixing off"),
        "{screen}"
    );
    assert!(screen.contains("integer 24 bit, DoP 352800 Hz"), "{screen}");
    assert!(screen.contains("512 frames (1.5 ms)"), "{screen}");
    assert!(screen.contains("50%"), "{screen}");
}

#[test]
fn the_debug_pane_lines_up_under_its_labels() {
    assert_eq!(
        screen(&device()),
        "device     Topping D50  exclusive, mixing off\n\
         transport  integer 24 bit, DoP 352800 Hz\n\
         io buffer  512 frames (1.5 ms)\n\
         queue       50%   44100 of 88200 frames\n\
         underruns  0 frames (0 ms of DSD silence)\n\
         frames     10584000 of 42336000\n\
         stream     5644800 bit/s per channel, 84672000 bytes per channel"
    );
}

#[test]
fn a_natively_streamed_track_names_its_carrier_and_container_width() {
    let mut device = device();
    device.carrier = "native DSD";
    device.bits = 32;
    device.name = "Cayin RU7".to_owned();

    let screen = screen(&device);

    assert!(
        screen.contains("integer 32 bit, native DSD 352800 Hz"),
        "{screen}"
    );
    assert!(!screen.contains("DoP"), "{screen}");
}

fn empty_browser() -> Browser {
    Browser::open("/music".to_owned(), Ok(Vec::new()))
}

#[test]
fn an_idle_screen_says_so_and_keeps_the_key_hints() {
    let name = names(None, &TrackTags::default()).0;
    let hints = footer(&empty_browser(), State::Stopped, &None);
    let pane: Vec<String> = debug_pane(None, &None).iter().map(|line| line.line()).collect();

    assert!(name.contains("nothing loaded"), "{name}");
    assert_eq!(pane, ["nothing playing"]);
    assert!(hints.contains("space play/pause"), "{hints}");
}

#[test]
fn the_debug_pane_ends_with_what_went_wrong() {
    let error = Some("device is busy".to_owned());
    let idle: Vec<String> = debug_pane(None, &error).iter().map(|line| line.line()).collect();
    let (device, track, figures) = (device(), track(), figures());
    let playing = debug_pane(Some((&device, &track, progress(), &figures)), &error);

    assert_eq!(idle, ["nothing playing", "error      device is busy"]);
    assert_eq!(playing.len(), debug_rows(&device, &track, progress(), &figures).len() + 1);
    assert_eq!(
        playing[playing.len() - 1].line(),
        "error      device is busy"
    );
}

#[test]
fn a_failed_load_replaces_the_key_hints_with_the_error() {
    let error = Some("device is busy".to_owned());

    let hints = footer(&empty_browser(), State::Stopped, &error);

    assert!(hints.contains("device is busy"), "{hints}");
    assert!(!hints.contains("space play/pause"), "{hints}");
    assert_eq!(footer(&empty_browser(), State::Playing, &error), KEYS);
}

#[test]
fn a_tagged_recording_is_named_by_artist_and_title_with_the_album_beneath() {
    let tags = TrackTags {
        title: Some("So What".to_owned()),
        artist: Some("Miles Davis".to_owned()),
        album: Some("Kind of Blue".to_owned()),
        track: Some(1),
    };
    let playing = TrackRef::file("/music/track.dsf".to_owned());

    assert_eq!(
        names(Some(&playing), &tags),
        (
            "Miles Davis — So What".to_owned(),
            Some("Kind of Blue".to_owned())
        )
    );
}

#[test]
fn home_is_abbreviated_and_what_opens_ends_in_a_slash() {
    assert_eq!(
        short_path("/Users/me/Music", Some("/Users/me")),
        "~/Music"
    );
    assert_eq!(short_path("/Volumes/x", Some("/Users/me")), "/Volumes/x");
    assert_eq!(short_path("/Volumes/x", None), "/Volumes/x");
    let entries = dsd_rust::tui::browser::list_dir("/music", &Vec::new(), &Vec::new());
    assert_eq!(row_text(&entries[0]), "../");
}

/// One second of DSD64 carried as DoP is 176 400 frames.
const DOP_SECOND: u32 = 176_400;

#[test]
fn a_seek_forward_lands_a_whole_number_of_seconds_on() {
    let reached = seek_to(176_400 * 10, 5, DOP_SECOND, 176_400 * 60);

    assert_eq!(reached, 176_400 * 15);
}

#[test]
fn a_seek_back_past_the_start_lands_on_the_start() {
    let reached = seek_to(176_400 * 2, -5, DOP_SECOND, 176_400 * 60);

    assert_eq!(reached, 0);
}

#[test]
fn a_seek_forward_past_the_end_lands_on_the_end() {
    let reached = seek_to(176_400 * 59, 5, DOP_SECOND, 176_400 * 60);

    assert_eq!(reached, 176_400 * 60);
}

#[test]
fn a_pcm_seek_counts_in_the_files_own_sample_rate() {
    let reached = seek_to(96_000, 5, 96_000, 96_000 * 60);

    assert_eq!(reached, 96_000 * 6);
}

#[test]
fn a_clock_shows_minutes_and_two_digits_of_seconds() {
    assert_eq!(clock(0), "0:00");
    assert_eq!(clock(65), "1:05");
    assert_eq!(clock(3_600), "60:00");
    assert_eq!(
        stall_text("Cayin RU7", 65),
        "Cayin RU7: stopped accepting transfers at 1:05; the track did not play out"
    );
    assert_eq!(
        dropout_text(512, "3"),
        "  512 frames of silence filled underruns (3 ms); raise --buffer-ms"
    );
}

#[test]
fn a_rate_is_probed_once_and_carried_from_then_on_where_the_device_takes_it() {
    let mut rates = CarrierRates::of(
        vec![176_400, 352_800],
        &vec![176_400, 352_800, 705_600, 1_411_200],
    );
    assert_eq!(rates.unprobed, [705_600, 1_411_200]);

    assert_eq!(
        rates.carries_dop(DsdRate::new(2_822_400)),
        Carries::Yes
    );
    assert_eq!(
        rates.carries_dop(DsdRate::new(11_289_600)),
        Carries::Probe
    );
    rates.settle(705_600, true);
    assert_eq!(
        rates.carries_dop(DsdRate::new(11_289_600)),
        Carries::Yes
    );
    assert!(rates.is_unadvertised(705_600));
    assert_eq!(
        rates.carries_dop(DsdRate::new(22_579_200)),
        Carries::Probe
    );
    rates.settle(1_411_200, false);
    assert_eq!(
        rates.carries_dop(DsdRate::new(22_579_200)),
        Carries::No
    );
    assert!(unadvertised_dop_rates(&vec![44_100], &Vec::new()).is_empty());
}

#[test]
fn only_dsd_that_no_carrier_takes_goes_natively_and_never_shared() {
    let pcm = AudioFormat::Pcm(dsd_rust::audio::PcmFormat {
        rate: 44_100,
        bits: 16,
        channels: 2,
    });

    assert_eq!(route(pcm, false, false), Route::CoreAudio);
    assert_eq!(route(dsd128(), true, false), Route::CoreAudio);
    assert_eq!(route(dsd128(), false, true), Route::Native);
    assert_eq!(route(dsd128(), false, false), Route::Refused);
    assert!(shared_refusal("Cayin RU7", "DSD256").contains("drop --shared"));
    assert!(retries(1, true));
    assert!(!retries(4, true));
    assert!(!retries(1, false));
}

#[test]
fn a_session_asks_for_the_recordings_own_rate_and_sizes_its_queue_by_it() {
    let options = PlayOptions {
        exclusive: true,
        buffer_ms: 500,
        buffer_frames: None,
    };
    let rates = CarrierRates::of(vec![352_800], &Vec::new());

    let request = request_for(dsd128(), &options, &rates);

    assert_eq!(request.pcm_rate, 352_800);
    assert_eq!(request.carrier, Carrier::Dop);
    assert!(!request.allow_unadvertised_rate);
    let words = capacity(dsd128(), 500, 2_048);
    assert_eq!(words, 352_800);
    assert_eq!(prefill(words, 2, 1_000_000), 88_200);
    assert_eq!(prefill(words, 2, 100), 100);
    assert_eq!(capacity(dsd128(), 20, 100_000), 800_000);
}

#[test]
fn a_session_is_complete_once_everything_queued_has_been_played() {
    let mut counters = Counters {
        frames_written: 10,
        frames_played: 4,
        finished: true,
    };
    assert_eq!(counters.queued(), 6);
    assert!(!counters.is_complete());
    assert!(counters.has_stalled(false));
    assert!(!counters.awaits(20, false));
    counters.frames_played = 10;
    assert!(counters.is_complete());
    assert!(!counters.has_stalled(false));
    counters.finished = false;
    assert!(counters.awaits(20, false));
    assert!(counters.refills(100, false));
    assert_eq!(counters.position(7), 7);
}

#[test]
fn silence_counts_as_a_dropout_only_until_the_file_is_queued() {
    let mut watch = Watch::default();
    let mut sight = Sight {
        stop: false,
        complete: false,
        stalled: false,
        fully_queued: false,
        underrun_frames: 512,
        seconds: 0,
    };

    assert_eq!(watch.look(sight), Look::Show);
    assert_eq!(watch.look(sight), Look::Nothing);
    sight.fully_queued = true;
    sight.underrun_frames = 4_096;
    sight.seconds = 1;
    assert_eq!(watch.look(sight), Look::Show);
    assert_eq!(watch.dropouts, 512);
    sight.stalled = true;
    assert_eq!(watch.look(sight), Look::Stalled);
    sight.complete = true;
    assert_eq!(watch.look(sight), Look::Ended);
}

#[test]
fn the_line_before_a_track_says_where_it_goes() {
    let info = DeviceInfo::of("Topping D50", dsd128(), Encoding::Float32, 512, false, false);

    assert_eq!(
        info.line(),
        "  -> Topping D50: DoP 352800 Hz, 512 frame buffer, float32, shared"
    );
}
