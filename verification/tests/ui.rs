use rcof::audio::{DeviceInfo, Sink, Source};
use rcof::controls::CallView;
use rcof::double::Double;
use rcof::ffmpeg;
use rcof::metrics::Metrics;
use rcof::ui::{
    device_names, frames_label, is_error, is_live, refresh, sink_label, source_label, video_label,
    Closing, Options, Refresh, Station,
};
use rcof::video::{Quality, VideoSource};

#[test]
fn a_call_is_started_with_what_was_chosen() {
    let mut station = Station::new(Options::default());
    let options = station.call_options();
    assert_eq!(options.id, "a");
    assert_eq!(options.tone_hz, 440.0f32.to_bits());
    assert_eq!(options.connect_timeout, 120);
    assert_eq!(options.input_device, None);
    assert!(options.adaptive && options.no_stdin);
    station.launch.id = "b".into();
    station.input_device = "desk".into();
    station.launch.stats_file = Some("x.json".into());
    let options = station.call_options();
    assert_eq!(options.tone_hz, 660.0f32.to_bits());
    assert_eq!(options.input_device.as_deref(), Some("desk"));
    assert_eq!(options.stats_file.as_deref(), Some("x.json"));
    assert_eq!(options.video.quality, Quality::Standard);
    assert_eq!(station.launch.window_x, 80.0f32.to_bits());
    station.launch.auto_join = true;
    assert!(station.takes_auto_join() && !station.takes_auto_join());
}

#[test]
fn buttons_send_commands() {
    let mut station = Station::new(Options::default());
    assert_eq!(station.toggle_mute(), "mute");
    assert_eq!(station.toggle_mute(), "unmute");
    assert_eq!(station.toggle_camera(), "camera-off");
    assert_eq!(station.toggle_camera(), "camera-on");
    station.muted = true;
    station.error = Some("x".into());
    assert!(!station.begin(true));
    assert!(station.muted);
    assert!(station.begin(false));
    assert!(!station.muted && station.error.is_none());
}

#[test]
fn window_leaves_the_call_before_it_closes() {
    let mut station = Station::new(Options::default());
    assert_eq!(station.close(false, 100, true), Closing::Stay);
    assert_eq!(station.exit_reason(true, 0), Some("window close requested"));
    assert_eq!(station.close(true, 0, true), Closing::LeaveFirst);
    assert_eq!(station.exit_reason(true, 0), None);
    assert_eq!(station.close(false, 0, true), Closing::Stay);
    assert_eq!(station.close(false, 0, false), Closing::Close);
    let mut timed = Station::new(Options { exit_after: 5, ..Options::default() });
    assert_eq!(timed.close(false, 4, false), Closing::Stay);
    assert_eq!(timed.exit_reason(false, 5), Some("exit-after timer"));
    assert_eq!(timed.close(false, 5, false), Closing::Close);
}

#[test]
fn screenshot_is_taken_once() {
    let mut station = Station::new(Options { screenshot: Some("x.png".into()), ..Options::default() });
    assert!(!station.takes_screenshot(7));
    assert!(station.takes_screenshot(8));
    assert!(!station.takes_screenshot(9));
    assert!(!Station::new(Options::default()).takes_screenshot(9));
}

#[test]
fn pictures_are_loaded_when_they_change() {
    let mut shown = 0;
    assert_eq!(refresh(Some(4), &mut shown), Refresh::Load);
    assert_eq!(refresh(Some(4), &mut shown), Refresh::Keep);
    assert_eq!(refresh(None, &mut shown), Refresh::Clear);
    assert_eq!(shown, 0);
    assert!(is_live(Some(5), 1_000_004));
    assert!(!is_live(Some(5), 1_000_005));
    assert!(is_live(Some(5), 0));
    assert!(!is_live(None, 0));
}

#[test]
fn labels_tell_what_is_chosen() {
    assert_eq!(source_label(Source::Tone), "Test tone");
    assert_eq!(source_label(Source::Mic), "Microphone");
    assert_eq!(sink_label(Sink::Null), "Silent test");
    assert_eq!(sink_label(Sink::Speaker), "Headphones / speaker");
    assert_eq!(video_label(VideoSource::Off), "No outgoing video");
    assert_eq!(frames_label(Some(120)), "120 frames");
    assert_eq!(frames_label(None), "—");
    assert!(is_error("Error: x") && is_error("error: x") && !is_error("connected"));
    let mut station = Station::new(Options::default());
    assert_eq!(station.sending_label(2), "Sending: Low · 320 × 180 · adaptation on");
    station.adaptive = false;
    assert_eq!(station.sending_label(9), "Sending: Standard · 640 × 360 · adaptation off");
}

#[test]
fn devices_are_listed_by_ability() {
    let list = vec![
        DeviceInfo { name: Some("a".into()), input: true, output: false },
        DeviceInfo { name: None, input: true, output: true },
        DeviceInfo { name: Some("b".into()), input: true, output: true },
    ];
    let (inputs, outputs) = device_names(&list);
    assert_eq!(inputs, vec!["a", "b"]);
    assert_eq!(outputs, vec!["b"]);
}

#[test]
fn call_view_follows_a_call() {
    let mut view = CallView::new();
    view.open(VideoSource::Pattern);
    assert_eq!(view.state, "Opening devices");
    assert!(view.video.enabled);
    view.choose_quality(Quality::Minimal);
    assert_eq!(view.video.quality, 1);
    view.state("Waiting for peer");
    assert_eq!(view.state, "Waiting for peer");
    view.finish(Metrics::new().summary("a", Double { bits: 0 }, "left"), "left");
    assert!(view.ended);
    assert_eq!(view.state, "left");
    assert_eq!(view.summary.unwrap().outcome, "left");
}

#[test]
fn programs_get_their_arguments() {
    let line = ffmpeg::encoder_arguments(Quality::Tiny, 2);
    assert_eq!(line.len(), 38);
    let text = line.join(" ");
    assert!(text.starts_with("-probesize 32 -analyzeduration 0 -f rawvideo -pixel_format rgb24 -video_size 160x90 -framerate 5 -i pipe:0"));
    assert!(text.ends_with("-g 10 -b:v 40000 -pix_fmt yuv420p -flush_packets 1 -f ivf pipe:1"));
    let line = ffmpeg::capture_arguments(Quality::Low, "1");
    assert_eq!(line[5], "1:none");
    assert_eq!(
        line[8],
        "fps=15,scale=320:180:force_original_aspect_ratio=decrease,pad=320:180:(ow-iw)/2:(oh-ih)/2"
    );
    assert_eq!(ffmpeg::decoder_arguments().join(" "), "-probesize 32 -analyzeduration 0 -threads 1 -f ivf -i pipe:0 -an -threads 1 -f rawvideo -pix_fmt rgb24 -fps_mode passthrough -flush_packets 1 pipe:1");
    assert_eq!(ffmpeg::common_arguments().join(" "), "-hide_banner -loglevel error -nostdin");
    assert_eq!(ffmpeg::resolve("ffmpeg", &vec![false, true]), "/usr/local/bin/ffmpeg");
    assert_eq!(ffmpeg::resolve("ffmpeg", &vec![true, true]), ffmpeg::places()[0]);
    assert_eq!(ffmpeg::resolve("ffmpeg", &vec![false, false]), "ffmpeg");
    assert_eq!(ffmpeg::resolve("/x/ffmpeg", &vec![true, true]), "/x/ffmpeg");
    assert_eq!(ffmpeg::picture_bytes(640, 360), 691_200);
}
