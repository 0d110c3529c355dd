use rcof::address::{parse_ip, Endpoint, Ip};
use rcof::audio::{Profile, Sink, Source};
use rcof::call::{
    admits_address, check_media_port, note_transport, outcome, relay_sdp, validate_sdp, Options,
    SdpError,
};
use rcof::metrics::Metrics;
use rcof::packets::RtpPacket;
use rcof::reorder::AudioReorder;
use rcof::text;
use rcof::video;

fn packet(seq: u16) -> RtpPacket {
    RtpPacket {
        sequence_number: seq,
        timestamp: 0,
        marker: false,
        extension: None,
        payload: vec![],
    }
}

#[test]
fn reorder_waits_for_missing_audio_and_handles_wrap() {
    let now = 1_000_000_000u64;
    let ms = 1_000_000u64;
    let mut q = AudioReorder::new();
    q.push(packet(65535), now);
    assert_eq!(q.pop(now).unwrap().sequence_number, 65535);
    q.push(packet(1), now);
    assert!(q.pop(now).is_none());
    q.push(packet(0), now);
    assert_eq!(q.pop(now).unwrap().sequence_number, 0);
    assert_eq!(q.pop(now).unwrap().sequence_number, 1);
    assert!(!q.push(packet(0), now));
    q.push(packet(3), now);
    assert!(q.pop(now + 29 * ms).is_none());
    assert_eq!(q.pop(now + 31 * ms).unwrap().sequence_number, 3);
}

#[test]
fn relay_replaces_every_candidate() {
    let source = "a=candidate:1 1 udp 1 127.0.0.1 1000 typ host\r\na=candidate:2 1 udp 1 127.0.0.2 1001 typ host\r\n";
    let mapped = relay_sdp(source, 9999).unwrap();
    assert_eq!(mapped.matches("127.0.0.1 9999").count(), 2);
    assert!(!mapped.contains("1000"));
    assert!(!mapped.contains("1001"));
    assert!(relay_sdp(source, 0).is_err());
}

#[test]
fn rejects_external_ice_candidates() {
    assert!(validate_sdp("a=candidate:1 1 udp 1 127.0.0.1 9999 typ host\r\n").is_ok());
    for s in [
        "a=candidate:1 1 udp 1 192.168.1.2 9999 typ host",
        "a=candidate:1 1 udp 1 host.local 9999 typ host",
        "a=candidate:1 1 tcp 1 127.0.0.1 9999 typ host",
        "v=0",
    ] {
        assert!(validate_sdp(s).is_err());
    }
}

#[test]
fn each_fault_of_a_description_is_told() {
    assert_eq!(validate_sdp("a=candidate:1 1 udp 1"), Err(SdpError::Malformed));
    assert_eq!(
        validate_sdp("a=candidate:1 1 udp 1 host.local 9999 typ host"),
        Err(SdpError::Name)
    );
    assert_eq!(
        validate_sdp("a=candidate:1 1 udp 1 10.0.0.1 9999 typ host"),
        Err(SdpError::Rejected)
    );
    assert_eq!(
        validate_sdp("a=candidate:1 1 udp 1 127.0.0.1 9999 typ relay"),
        Err(SdpError::Rejected)
    );
    assert_eq!(validate_sdp("v=0\r\n"), Err(SdpError::NoCandidates));
    assert_eq!(
        relay_sdp("a=candidate:1 1 udp 1 127.0.0.1 9 typ host", 0),
        Err(SdpError::RelayPort)
    );
    assert_eq!(SdpError::RelayPort.message(), "relay port must be nonzero");
    assert_eq!(SdpError::Malformed.message(), "malformed ICE candidate");
    assert_eq!(
        SdpError::Name.message(),
        "P0 rejects DNS ICE candidates: invalid IP address syntax"
    );
    assert!(validate_sdp("a=candidate:1 1 UDP 1 ::1 9999 typ host").is_ok());
}

#[test]
fn relayed_description_keeps_its_other_lines() {
    let source = "v=0\na=candidate:1  1 udp 1 127.0.0.3 1000 typ host\nm=audio";
    let mapped = relay_sdp(source, 7).unwrap();
    assert_eq!(mapped, "v=0\r\na=candidate:1 1 udp 1 127.0.0.1 7 typ host\r\nm=audio\r\n");
    // A second relay takes the place of the first.
    assert_eq!(relay_sdp(&mapped, 8).unwrap(), relay_sdp(source, 8).unwrap());
}

#[test]
fn full_window_gives_up_the_expected_packet() {
    let mut q = AudioReorder::new();
    q.push(packet(10), 0);
    assert_eq!(q.pop(0).unwrap().sequence_number, 10);
    for seq in (12..43u16).rev() {
        assert!(q.push(packet(seq), 0));
    }
    assert!(q.pop(0).is_none());
    assert!(q.push(packet(43), 0));
    assert_eq!(q.pop(0).unwrap().sequence_number, 12);
    let mut metrics = Metrics::new();
    q.receive(packet(13), 0, &mut metrics);
    q.receive(packet(11), 0, &mut metrics);
    q.receive(packet(44), 0, &mut metrics);
    assert_eq!(metrics.late_packets, 2);
    // Packets come out in order.
    for seq in 13..45u16 {
        assert_eq!(q.pop(0).unwrap().sequence_number, seq);
    }
}

#[test]
fn addresses_are_read_from_text() {
    let read = |s: &str| parse_ip(&text::characters(s));
    let v4 = |value: u32| Some(Ip::V4(value));
    let v6 = |value: u128| Some(Ip::V6(value));
    for (s, expected) in [
        ("127.0.0.1", v4(0x7f00_0001)),
        ("255.255.255.255", v4(u32::MAX)),
        ("0.0.0.0", v4(0)),
        ("::1", v6(1)),
        ("::", v6(0)),
        ("1:2:3:4:5:6:7:8", v6(0x0001_0002_0003_0004_0005_0006_0007_0008)),
        ("fe80::1", v6(0xfe80_0000_0000_0000_0000_0000_0000_0001)),
        ("::ffff:1.2.3.4", v6(0xffff_0102_0304)),
        ("1::8", v6(0x0001_0000_0000_0000_0000_0000_0000_0008)),
        ("abcd:EF01::", v6(0xabcd_ef01_0000_0000_0000_0000_0000_0000)),
        ("1:2:3:4:5:6:1.2.3.4", v6(0x0001_0002_0003_0004_0005_0006_0102_0304)),
        ("1:2:3:4:5:6:7::", v6(0x0001_0002_0003_0004_0005_0006_0007_0000)),
        ("::2:3:4:5:6:7:8", v6(0x0002_0003_0004_0005_0006_0007_0008)),
        ("256.1.1.1", None),
        ("1.2.3", None),
        ("01.2.3.4", None),
        ("1.2.3.4.5", None),
        (":::", None),
        ("1::2::3", None),
        ("12345::", None),
        ("1:2:3:4:5:6:7", None),
        ("g::", None),
        ("", None),
        ("1.2.3.4 ", None),
        ("::1.2.3", None),
        ("1:2:3:4:5:6:7:8:9", None),
        ("host.local", None),
        ("+1.2.3.4", None),
        ("1..2.3", None),
    ] {
        assert_eq!(read(s), expected, "{s}");
    }
    assert!(Ip::V4(0x7fff_ffff).is_loopback() && Ip::V6(1).is_loopback());
    assert!(!Ip::V4(0x8000_0000).is_loopback() && !Ip::V6(2).is_loopback());
    assert!(Ip::V4(1).is_ipv4() && !Ip::V6(1).is_ipv4());
}

#[test]
fn relayed_calls_use_one_address() {
    assert!(admits_address(Ip::V4(0x7f00_0001), true));
    assert!(!admits_address(Ip::V4(0x7f00_0002), true));
    assert!(admits_address(Ip::V4(0x7f00_0002), false));
    assert!(admits_address(Ip::V6(1), false));
    assert!(!admits_address(Ip::V4(0x0a00_0001), false));
}

fn options() -> Options {
    Options {
        id: "a".into(),
        media_port: None,
        peer_relay: None,
        adaptive: false,
        room: "demo".into(),
        server: Endpoint { ip: Ip::V4(0x7f00_0001), port: 8790 },
        source: Source::Tone,
        sink: Sink::Null,
        input_device: None,
        output_device: None,
        tone_hz: 440.0f32.to_bits(),
        bitrate: None,
        audio_profile: Profile::Standard,
        audio_complexity: 10,
        no_audio_dtx: false,
        duration: 3,
        connect_timeout: 30,
        stats_file: None,
        no_stdin: true,
        video: video::Options::default(),
    }
}

#[test]
fn options_are_checked() {
    let mut o = options();
    assert!(!o.sends_video());
    o.video.video = video::VideoSource::Pattern;
    assert!(o.sends_video());
    assert_eq!(o.limits().duration, 3);
    assert_eq!(o.limits().connect_timeout, 30);
    for (tone, good) in [
        (20.0f32, true),
        (4000.0, true),
        (19.99, false),
        (4000.1, false),
        (-440.0, false),
        (f32::NAN, false),
        (f32::INFINITY, false),
        (0.0, false),
    ] {
        o.tone_hz = tone.to_bits();
        assert_eq!(o.check_tone().is_ok(), good, "{tone}");
    }
    assert_eq!(o.check_tone().unwrap_err(), "--tone-hz must be between 20 and 4000");
    assert_eq!(check_media_port(Some(0)).unwrap_err(), "media port must be nonzero");
    assert!(check_media_port(Some(1)).is_ok() && check_media_port(None).is_ok());
}

#[test]
fn outcome_tells_errors_apart() {
    assert_eq!(outcome(Ok("left")), "left");
    assert_eq!(outcome(Err("media connection failed")), "error: media connection failed");
    let mut metrics = Metrics::new();
    note_transport(&mut metrics, 7, 9);
    assert_eq!((metrics.transport_tx, metrics.transport_rx), (7, 9));
}
