use rcof::audio::{Profile, Source};
use rcof::metrics::Metrics;
use rcof::packets::{write_stamp, RtpPacket};
use rcof::queue::SampleQueue;
use rcof::screen::View;
use rcof::session::{
    parse_command, Command, Ending, Limits, PeerState, PollAction, SdpKind, Session, SessionError,
    StateAction, Status, Verdict,
};
use rcof::speech::{
    any_audible, audio_settings, enqueue_audio, overslept, take_capture, AudioReceiver, AudioSender,
    Plan,
};
use rcof::video::{Quality, VideoSource};

const SECOND: u64 = 1_000_000_000;
const SDP: &str = "a=candidate:1 1 udp 1 127.0.0.1 9999 typ host\r\n";

#[test]
fn commands_are_read_and_carried_out() {
    let mut muted = false;
    let mut view = View::new();
    assert_eq!(parse_command("  mute\n"), Command::Mute);
    parse_command("mute").apply(VideoSource::Camera, &mut muted, &mut view);
    assert!(muted);
    parse_command("unmute").apply(VideoSource::Camera, &mut muted, &mut view);
    assert!(!muted);
    parse_command("camera-on").apply(VideoSource::Camera, &mut muted, &mut view);
    assert!(view.enabled);
    parse_command("camera-on").apply(VideoSource::Off, &mut muted, &mut view);
    assert!(!view.enabled);
    parse_command("quality-low").apply(VideoSource::Off, &mut muted, &mut view);
    assert_eq!(view.quality, 2);
    assert_eq!(parse_command("quality-tiny"), Command::Quality(Quality::Tiny));
    assert_eq!(parse_command("quality-minimal"), Command::Quality(Quality::Minimal));
    assert_eq!(parse_command("quality-standard"), Command::Quality(Quality::Standard));
    assert_eq!(parse_command("leave"), Command::Quit);
    assert_eq!(parse_command("quit"), Command::Quit);
    assert_eq!(parse_command("stats"), Command::Stats);
    assert_eq!(parse_command("camera-off"), Command::CameraOff);
    assert_eq!(parse_command("Mute"), Command::Help);
    assert_eq!(Command::Help.reply(), Some("commands: mute, unmute, stats, quit"));
    assert_eq!(Command::Stats.reply(), None);
}

#[test]
fn one_side_offers_and_the_other_answers() {
    let mut a = Session::new(0);
    let mut b = Session::new(0);
    assert_eq!(a.polled("a", &None), PollAction::Nothing);
    assert_eq!(a.polled("a", &Some("b".into())), PollAction::Offer);
    assert_eq!(b.polled("b", &Some("a".into())), PollAction::Nothing);
    a.offer_sent();
    assert_eq!(a.polled("a", &Some("b".into())), PollAction::Nothing);
    assert_eq!(
        b.description(SdpKind::Answer, SDP, None).err(),
        Some(SessionError::UnexpectedDescription)
    );
    let taken = b.description(SdpKind::Offer, SDP, Some(7)).unwrap();
    assert!(taken.answer);
    assert_eq!(taken.sdp, SDP.replace("9999", "7"));
    assert_eq!(
        b.description(SdpKind::Offer, SDP, None).err(),
        Some(SessionError::RepeatedDescription)
    );
    assert_eq!(
        a.description(SdpKind::Offer, SDP, None).err(),
        Some(SessionError::UnexpectedDescription)
    );
    assert_eq!(
        a.description(SdpKind::Rollback, SDP, None).err(),
        Some(SessionError::UnexpectedDescription)
    );
    let taken = a.description(SdpKind::Answer, SDP, None).unwrap();
    assert!(!taken.answer);
    assert_eq!(taken.sdp, SDP);
    assert!(matches!(
        Session::new(0).description(SdpKind::Offer, "v=0", None),
        Err(SessionError::Sdp(_))
    ));
    assert_eq!(a.polled("a", &None), PollAction::PeerLeft);
}

#[test]
fn connection_changes_are_followed() {
    let mut s = Session::new(0);
    assert_eq!(s.peer_state(PeerState::Other, 1), Ok(StateAction::Continue));
    assert_eq!(s.peer_state(PeerState::Connected, 5), Ok(StateAction::Start));
    assert_eq!(s.peer_state(PeerState::Disconnected, 6), Ok(StateAction::Continue));
    assert_eq!(s.disconnected, Some(6));
    assert_eq!(s.peer_state(PeerState::Connected, 7), Ok(StateAction::Continue));
    assert_eq!((s.connected, s.disconnected), (Some(5), None));
    assert_eq!(s.peer_state(PeerState::Failed, 8), Err(SessionError::MediaFailed));
    assert_eq!(s.peer_state(PeerState::Closed, 8), Ok(StateAction::Closed));
    assert_eq!(s.track(true), Ok(()));
    assert_eq!(s.track(false), Ok(()));
    assert_eq!(s.track(true), Err(SessionError::SecondVideoTrack));
    assert_eq!(s.track(false), Err(SessionError::SecondAudioTrack));
    assert_eq!(SessionError::SecondAudioTrack.message(), "unexpected additional audio track");
}

#[test]
fn each_limit_of_a_call_is_watched() {
    let limits = Limits { duration: 0, connect_timeout: 30, source: Source::Tone };
    let mut metrics = Metrics::new();
    let mut s = Session::new(0);
    assert_eq!(s.tick(30 * SECOND, limits, &metrics).verdict, Verdict::Continue);
    assert_eq!(
        s.tick(30 * SECOND + 1, limits, &metrics).verdict,
        Verdict::Fail(SessionError::ConnectTimeout)
    );
    s.peer_state(PeerState::Connected, SECOND).unwrap();
    let tick = s.tick(SECOND + 1, limits, &metrics);
    assert_eq!((tick.status, tick.verdict), (None, Verdict::Continue));
    assert_eq!(s.tick(2 * SECOND, limits, &metrics).status, Some(Status::Interrupted));
    metrics.rx_frames = 1;
    assert_eq!(s.tick(2 * SECOND, limits, &metrics).status, Some(Status::Connected));
    assert_eq!(s.tick(3 * SECOND + SECOND / 2, limits, &metrics).status, None);
    assert_eq!(s.tick(3 * SECOND + SECOND / 2 + 1, limits, &metrics).status, Some(Status::Interrupted));
    s.peer_state(PeerState::Disconnected, 4 * SECOND).unwrap();
    assert_eq!(s.tick(16 * SECOND, limits, &metrics).verdict, Verdict::Continue);
    let tick = s.tick(16 * SECOND + 1, limits, &metrics);
    assert_eq!((tick.status, tick.verdict), (None, Verdict::Fail(SessionError::PeerGone)));
    s.peer_state(PeerState::Connected, 17 * SECOND).unwrap();
    let timed = Limits { duration: 20, ..limits };
    assert_eq!(s.tick(21 * SECOND - 1, timed, &metrics).verdict, Verdict::Continue);
    assert_eq!(s.tick(21 * SECOND, timed, &metrics).verdict, Verdict::Done);
    metrics.rx_frames = 0;
    assert_eq!(s.tick(21 * SECOND, timed, &metrics).verdict, Verdict::Fail(SessionError::NoAudio));
    let mic = Limits { source: Source::Mic, ..limits };
    assert_eq!(s.tick(3 * SECOND + 1, mic, &metrics).verdict, Verdict::Fail(SessionError::SilentMicrophone));
    metrics.captured_samples = 1;
    assert_eq!(s.tick(3 * SECOND + 1, mic, &metrics).verdict, Verdict::Continue);
    metrics.device_errors = 1;
    assert_eq!(s.tick(3 * SECOND + 1, mic, &metrics).verdict, Verdict::Fail(SessionError::DeviceStopped));
}

fn packet(sequence: u16, created: u64) -> RtpPacket {
    RtpPacket {
        sequence_number: sequence,
        timestamp: 0,
        marker: false,
        extension: Some(write_stamp(created)),
        payload: vec![1, 2, 3],
    }
}

#[test]
fn lost_audio_is_made_up_for_within_bounds() {
    let mut receiver = AudioReceiver::new();
    let mut metrics = Metrics::new();
    let now = 50_000_000;
    assert_eq!(
        receiver.accept(&packet(65534, 49_999_000), Some(960), now, &mut metrics),
        Some(Plan { missing: 0, created: 49_999_000, samples: 960 })
    );
    assert_eq!(metrics.audio_age_us, 1000);
    receiver.decoded(960, &vec![0; 960], 5, &mut metrics);
    // Two packets are missing across the wrap.
    let plan = receiver.accept(&packet(1, 49_999_500), Some(960), now, &mut metrics).unwrap();
    assert_eq!(plan.missing, 2);
    assert_eq!(metrics.gaps, 2);
    assert_eq!(receiver.conceal(plan.created, 2, &mut metrics), 49_959_500);
    assert_eq!(receiver.conceal(plan.created, 1, &mut metrics), 49_979_500);
    assert_eq!(receiver.conceal(7, 1, &mut metrics), 0);
    assert_eq!(metrics.audio_concealed_frames, 3);
    // Fifty are missing: sixty milliseconds are made up for.
    let plan = receiver.accept(&packet(52, 0), Some(960), now, &mut metrics).unwrap();
    assert_eq!((plan.missing, plan.created), (3, 0));
    receiver.decoded(1920, &vec![0x3f00_0000; 1920], 5, &mut metrics);
    let plan = receiver.accept(&packet(62, 0), Some(960), now, &mut metrics).unwrap();
    assert_eq!(plan.missing, 1);
    assert_eq!(metrics.rx_non_silent, 1);
    assert_eq!(metrics.rx_packet_samples, 1920);
    assert_eq!((metrics.rx_samples, metrics.rx_frames), (2880, 2));
    assert_eq!(receiver.accept(&packet(62, 0), Some(960), now, &mut metrics), None);
    assert_eq!(receiver.accept(&packet(61, 0), Some(960), now, &mut metrics), None);
    assert_eq!(metrics.late_packets, 2);
    for bad in [None, Some(0), Some(5761)] {
        assert_eq!(receiver.accept(&packet(63, 0), bad, now, &mut metrics), None);
    }
    AudioReceiver::refused(&mut metrics);
    assert_eq!(metrics.decode_errors, 4);
    // A time in the future, or too long ago, is not believed.
    assert_eq!(receiver.accept(&packet(63, now + 1), Some(960), now, &mut metrics).unwrap().created, 0);
    assert_eq!(receiver.accept(&packet(64, 40_000_000), Some(960), now, &mut metrics).unwrap().created, 0);
    assert_eq!(
        receiver.accept(&packet(65, 40_000_001), Some(960), now, &mut metrics).unwrap().created,
        40_000_001
    );
}

#[test]
fn silence_is_told_from_sound() {
    let bits = |v: f32| vec![0, v.to_bits()];
    for v in [0.0f32, -0.0, 0.001, -0.001, 0.0009, f32::NAN, 1e-30] {
        assert_eq!(any_audible(&bits(v)), v.abs() > 0.001);
    }
    for v in [0.0011f32, -0.5, 1.0, f32::INFINITY, f32::NEG_INFINITY, 0.001_000_001] {
        assert_eq!(any_audible(&bits(v)), v.abs() > 0.001);
    }
    assert!(!any_audible(&vec![]));
}

#[test]
fn samples_are_scheduled_and_the_oldest_dropped() {
    let mut queue = SampleQueue::new(3);
    let mut metrics = Metrics::new();
    enqueue_audio(&vec![1, 2], 1_000, true, 1000, &mut queue, &mut metrics);
    enqueue_audio(&vec![3, 4], 1_000, false, 1000, &mut queue, &mut metrics);
    assert_eq!(metrics.playback_dropped, 1);
    assert_eq!(metrics.playback_peak, 3);
    assert_eq!(queue.pop(), Some((2, 122_000)));
    assert_eq!(queue.pop(), Some((3, 0)));
    enqueue_audio(&vec![5], 0, true, 1000, &mut queue, &mut metrics);
    assert_eq!(queue.pop(), Some((4, 0)));
    assert_eq!(queue.pop(), Some((5, 0)));
}

#[test]
fn sender_waits_for_its_microphone_and_counts_on() {
    let mut metrics = Metrics::new();
    let settings = audio_settings(Profile::Minimum, None, false, 4, &mut metrics);
    assert_eq!((settings.packet_ms, settings.samples, settings.bitrate, settings.dtx), (60, 2880, 16_000, true));
    assert_eq!((metrics.audio_packet_ms, metrics.audio_target_bps, metrics.audio_complexity), (60, 16_000, 4));
    assert_eq!(audio_settings(Profile::Efficient, Some(6000), true, 4, &mut metrics).bitrate, 6000);
    assert!(!audio_settings(Profile::Efficient, None, true, 4, &mut metrics).dtx);
    assert!(!overslept(100_000_000) && overslept(100_000_001));

    let mut queue = SampleQueue::new(4800);
    let mut sender = AudioSender::new(Source::Mic, 4);
    for value in 0..963u32 {
        queue.push((value, 0));
    }
    assert!(!sender.ready(&queue));
    queue.push((963, 0));
    assert!(sender.ready(&queue));
    assert_eq!(sender.gather(vec![], &mut queue, &mut metrics), vec![0, 1, 2, 3]);
    assert!(sender.ready(&queue));
    take_capture(&mut queue, 958, &mut metrics);
    assert_eq!(metrics.capture_missing, 0);
    assert_eq!(sender.gather(vec![], &mut queue, &mut metrics), vec![962, 963, 0, 0]);
    assert_eq!(metrics.capture_missing, 2);
    assert_eq!(AudioSender::outgoing(vec![5, 6], true), vec![0, 0]);
    assert_eq!(AudioSender::outgoing(vec![5, 6], false), vec![5, 6]);
    let silent = AudioSender::new(Source::Silence, 2);
    assert_eq!(silent.gather(vec![], &mut queue, &mut metrics), vec![0, 0]);
    let tone = AudioSender::new(Source::Tone, 2);
    assert!(tone.capture_ready);
    assert_eq!(tone.gather(vec![8, 9], &mut queue, &mut metrics), vec![8, 9]);

    let packet = sender.packet(vec![7], 1, true);
    assert_eq!(packet.extension, Some(vec![0, 0, 0, 0, 0, 0, 0, 1]));
    sender.sent(1, &mut metrics);
    let packet = sender.packet(vec![7], 1, false);
    assert_eq!((packet.sequence_number, packet.timestamp, packet.marker), (1, 4, false));
    assert_eq!(packet.extension, None);
    assert_eq!((metrics.tx_samples, metrics.tx_frames, metrics.tx_payload), (4, 1, 1));
}

#[test]
fn endings_have_words() {
    assert_eq!(Ending::Interrupted.words(), "interrupted");
    assert_eq!(Ending::Left.words(), "left");
    assert_eq!(Ending::Closed.words(), "connection closed");
    assert_eq!(Ending::Duration.words(), "duration reached");
    assert_eq!(Ending::PeerLeft.words(), "peer left");
}
