use rcof::metrics::Metrics;
use rcof::packets::{find_extension, read_stamp, write_stamp, RtpPacket};
use rcof::screen::{Frame, View};
use rcof::video::{
    note_decoded, note_encoded, note_ready, note_sent, note_written, remaining, test_pattern, tint,
    Adaptation, Options, Quality, VideoSource,
};
use rcof::vp8::{
    check_stream, frame_length, ivf_header, keyframe_size, Reassembler, VideoError, VideoReceiver,
    VideoSequence, MAX_ENCODED,
};
use webrtc::rtp::codecs::vp8::Vp8Payloader;
use webrtc::rtp::packetizer::Payloader;

#[test]
fn vp8_tiny_tail_packets_decode() {
    for size in 990..1010 {
        let raw = bytes::Bytes::from(vec![0x55; size]);
        let mut payloader = Vp8Payloader::default();
        payloader.enable_picture_id = true;
        let fragments = payloader.payload(1000, &raw).unwrap();
        let mut receiver = Reassembler::new(false);
        let mut output = None;
        for (i, payload) in fragments.iter().enumerate() {
            output = receiver
                .push(
                    &RtpPacket {
                        timestamp: 1,
                        sequence_number: i as u16,
                        marker: i + 1 == fragments.len(),
                        extension: None,
                        payload: payload.to_vec(),
                    },
                    10,
                )
                .unwrap();
        }
        assert_eq!(output.unwrap().data, raw);
    }
}

#[test]
fn vp8_fragments_reassemble_and_missing_packet_is_rejected() {
    let raw = bytes::Bytes::from(vec![0x55; 5000]);
    let fragments = Vp8Payloader::default().payload(1000, &raw).unwrap();
    let mut complete = Reassembler::new(false);
    let mut broken = Reassembler::new(false);
    let mut output = None;
    for (i, payload) in fragments.iter().enumerate() {
        let p = RtpPacket {
            timestamp: 1,
            sequence_number: i as u16,
            marker: i + 1 == fragments.len(),
            extension: None,
            payload: payload.to_vec(),
        };
        output = complete.push(&p, 10).unwrap();
        if i != 1 {
            assert!(broken.push(&p, 10).unwrap().is_none());
        }
    }
    assert_eq!(output.unwrap().data, raw);
}

#[test]
fn adaptation_has_hysteresis_and_respects_ceiling() {
    let mut a = Adaptation::new();
    assert_eq!(a.observe(20, 3, 3), 3);
    assert_eq!(a.observe(20, 3, 3), 2);
    for _ in 0..7 {
        assert_eq!(a.observe(0, 2, 3), 2);
    }
    assert_eq!(a.observe(0, 2, 3), 3);
    for _ in 0..16 {
        assert_eq!(a.observe(0, 1, 1), 1);
    }
}

fn keyframe(width: u16, height: u16, length: usize) -> Vec<u8> {
    let mut data = vec![7u8; length];
    data[0] = 0x10;
    data[3..6].copy_from_slice(&[0x9d, 0x01, 0x2a]);
    data[6..8].copy_from_slice(&width.to_le_bytes());
    data[8..10].copy_from_slice(&height.to_le_bytes());
    data
}

#[test]
fn pictures_survive_the_way_from_sender_to_decoder() {
    let mut sequence = VideoSequence::new();
    sequence.sequence = 65_533;
    let mut payloader = Vp8Payloader::default();
    let mut receiver = VideoReceiver::new();
    let first = keyframe(640, 360, 2500);
    let mut second = vec![9u8; 997];
    second[0] = 0x11;
    let mut third = keyframe(320, 180, 12);
    third[11] = 1;
    let mut feeds = vec![];
    for (data, created) in [(&second, 5u64), (&first, 10), (&second, 20), (&third, 30)] {
        let packets = sequence.packetize(&mut payloader, data, created, true);
        for (i, packet) in packets.iter().enumerate() {
            assert_eq!(packet.marker, i + 1 == packets.len());
            assert!(packet.payload.len() <= 1000);
            assert_eq!(read_stamp(&packet.extension), Some(created));
            if let Some(feed) = receiver.push(packet).unwrap() {
                feeds.push(feed);
            }
            assert_eq!(packet.sequence_number, sequence.sequence);
            sequence.sent();
        }
        sequence.finish(15);
    }
    assert_eq!(sequence.rtp_time, 24_000);
    // The picture before the first keyframe is not shown.
    assert_eq!(feeds.len(), 3);
    assert_eq!(feeds[0].start, Some((640, 360)));
    assert!(!feeds[0].restart);
    assert_eq!(feeds[0].created, 10);
    assert_eq!(&feeds[0].record[..12], &[0xc4, 9, 0, 0, 0, 0, 0, 0, 0, 0, 0, 0]);
    assert_eq!(&feeds[0].record[12..], &first[..]);
    assert_eq!(feeds[1].start, None);
    assert_eq!(feeds[1].record[4], 1);
    assert_eq!(feeds[1].length, 997);
    assert!(feeds[2].restart);
    assert_eq!(feeds[2].start, Some((320, 180)));
    assert_eq!(feeds[2].record[4], 0);
}

#[test]
fn numbered_pictures_count_on() {
    let mut sequence = VideoSequence::new();
    let mut payloader = Vp8Payloader::default();
    let a = sequence.packetize(&mut payloader, &[1, 2, 3], 0, false);
    sequence.sent();
    sequence.finish(5);
    let b = sequence.packetize(&mut payloader, &[1, 2, 3], 0, false);
    assert_eq!(a[0].payload, vec![0x90, 0x80, 0, 1, 2, 3]);
    assert_eq!(b[0].payload, vec![0x90, 0x80, 1, 1, 2, 3]);
    assert_eq!(b[0].sequence_number, 1);
    assert_eq!(b[0].timestamp, 18_000);
    assert!(a[0].extension.is_none());
    for _ in 0..126 {
        sequence.packetize(&mut payloader, &[1], 0, false);
    }
    let c = sequence.packetize(&mut payloader, &[1, 2, 3], 0, false);
    assert_eq!(c[0].payload, vec![0x90, 0x80, 0x80, 128, 1, 2, 3]);
    assert!(sequence.packetize(&mut payloader, &[], 0, false).is_empty());
}

#[test]
fn a_picture_that_is_cut_off_leaves_no_gap() {
    let mut sequence = VideoSequence::new();
    let mut payloader = Vp8Payloader::default();
    let packets = sequence.packetize(&mut payloader, &[7; 2500], 0, false);
    assert_eq!(packets.len(), 3);
    // One packet is written, and then another picture takes its place.
    sequence.sent();
    let next = sequence.packetize(&mut payloader, &[7; 10], 0, false);
    assert_eq!((next[0].sequence_number, next[0].timestamp), (1, 0));
}

#[test]
fn gap_waits_for_a_keyframe_and_faults_are_told() {
    let packet = |sequence: u16, payload: Vec<u8>| RtpPacket {
        sequence_number: sequence,
        timestamp: sequence as u32,
        marker: true,
        extension: None,
        payload,
    };
    let mut r = Reassembler::new(false);
    assert!(r.push(&packet(1, vec![0x10, 1, 1, 1]), 0).unwrap().is_some());
    assert!(r.push(&packet(3, vec![0x10, 1, 1, 1]), 0).unwrap().is_none());
    assert!(r.waiting_key);
    let mut key = vec![0x10];
    key.extend(keyframe(16, 16, 10));
    assert!(r.push(&packet(4, key), 0).unwrap().is_some());
    assert!(!r.waiting_key);
    assert_eq!(r.push(&packet(5, vec![0x10, 1, 1]), 0).err(), Some(VideoError::ShortPacket));
    assert_eq!(r.push(&packet(6, vec![0x90, 0x80, 0x80, 0]), 0).err(), Some(VideoError::ShortPacket));
    let mut big = vec![0u8; MAX_ENCODED + 2];
    big[0] = 0x10;
    assert_eq!(r.push(&packet(7, big), 0).err(), Some(VideoError::FrameTooLarge));
    assert_eq!(VideoError::FrameTooLarge.message(), "remote video frame too large");
}

#[test]
fn keyframes_state_their_size() {
    assert_eq!(keyframe_size(&keyframe(640, 360, 10)), Some((640, 360)));
    assert_eq!(keyframe_size(&keyframe(0x4000 + 1280, 720, 10)), Some((1280, 720)));
    assert_eq!(keyframe_size(&keyframe(1281, 720, 10)), None);
    assert_eq!(keyframe_size(&keyframe(0, 720, 10)), None);
    assert_eq!(keyframe_size(&keyframe(640, 360, 10)[..9]), None);
    let mut inter = keyframe(640, 360, 10);
    inter[0] = 1;
    assert_eq!(keyframe_size(&inter), None);
}

#[test]
fn stream_headers_are_written_and_read() {
    let header = ivf_header(640, 360);
    assert_eq!(&header[..4], b"DKIF");
    assert_eq!(&header[4..8], &[0, 0, 32, 0]);
    assert_eq!(&header[8..12], b"VP80");
    assert_eq!(&header[12..16], &[0x80, 2, 0x68, 1]);
    assert_eq!(&header[16..24], &[15, 0, 0, 0, 1, 0, 0, 0]);
    assert_eq!(check_stream(&header), Ok(()));
    let mut other = header;
    other[11] = b'1';
    assert_eq!(check_stream(&other), Err(VideoError::EncoderOutput));
    let mut frame = [0u8; 12];
    assert_eq!(frame_length(&frame), Err(VideoError::FrameLength));
    frame[0] = 3;
    frame[1] = 1;
    assert_eq!(frame_length(&frame), Ok(259));
    frame[2] = 0x20;
    assert_eq!(frame_length(&frame), Err(VideoError::FrameLength));
    frame = [0, 0, 0x20, 0, 1, 2, 3, 4, 5, 6, 7, 8];
    assert_eq!(frame_length(&frame), Ok(MAX_ENCODED));
}

#[test]
fn presets_form_a_ladder() {
    assert_eq!(Quality::from_level(0), Quality::Tiny);
    assert_eq!(Quality::from_level(77), Quality::Standard);
    assert_eq!(Quality::Low.level(), 2);
    assert_eq!(Quality::Minimal.dimensions(), (256, 144));
    assert_eq!(Quality::Standard.bitrate(), 450_000);
    assert_eq!(Quality::Tiny.fps(), 5);
    assert_eq!(Quality::Low.fps(), 15);
    assert_eq!(Quality::Low.interval_us(), 66_666);
    assert_eq!(Quality::Low.label(), "Low · 320 × 180");
    assert_eq!(Quality::default(), Quality::Standard);
    let options = Options::default();
    assert_eq!(options.video, VideoSource::Off);
    assert_eq!((options.camera.as_str(), options.ffmpeg.as_str()), ("0", "ffmpeg"));
}

#[test]
fn test_pattern_has_bars_a_line_and_a_block() {
    let rgb = test_pattern(160, 90, 0, 0);
    assert_eq!(rgb.len(), 160 * 90 * 3);
    let at = |rgb: &[u8], x: usize, y: usize| {
        let i = (y * 160 + x) * 3;
        [rgb[i], rgb[i + 1], rgb[i + 2]]
    };
    // The line stands at the left edge, six points wide.
    assert_eq!(at(&rgb, 0, 0), [255, 255, 255]);
    assert_eq!(at(&rgb, 5, 89), [255, 255, 255]);
    // The first bar, under the dark and the bright field of the grid.
    assert_eq!(at(&rgb, 6, 0), [37, 81, 178]);
    assert_eq!(at(&rgb, 6, 32), [43, 93, 204]);
    // The block in the middle.
    assert_eq!(at(&rgb, 80, 45), [24, 31, 44]);
    let later = test_pattern(160, 90, 15, 1);
    assert_eq!(at(&later, 80, 45), [241, 246, 255]);
    assert_eq!(at(&later, 105, 0), [255, 255, 255]);
    assert_eq!(at(&later, 0, 0), [17, 135, 113]);
    assert!(test_pattern(0, 90, 0, 0).is_empty());
    assert_eq!(tint("a"), 97 % 6);
    assert_eq!(tint("zzz"), (122 * 3 % 256 % 6) as u8);
}

#[test]
fn view_is_cleared() {
    let frame = Frame { width: 1, height: 1, rgb: vec![0; 3], created_us: 1, received_us: 2 };
    let mut view = View::new();
    view.local = Some(std::sync::Arc::new(frame.clone()));
    view.remote = Some(std::sync::Arc::new(frame));
    view.enabled = true;
    view.quality = 2;
    assert!(!view.changed(Quality::Low));
    assert!(view.changed(Quality::Tiny));
    view.clear();
    assert!(view.local.is_none() && view.remote.is_none() && view.enabled);
    view.enabled = false;
    assert!(view.changed(Quality::Low));
}

#[test]
fn reports_move_the_stream_along_the_ladder() {
    let mut policy = Adaptation::new();
    let mut quality = 3u64;
    let mut metrics = Metrics::new();
    assert_eq!(policy.report(Some(1), 2, 99, true, Quality::Standard, &mut quality, &mut metrics), None);
    assert_eq!(metrics.video_loss_fraction, 0);
    assert_eq!(policy.report(Some(1), 1, 99, false, Quality::Standard, &mut quality, &mut metrics), None);
    assert_eq!(metrics.video_loss_fraction, 99);
    assert_eq!(policy.report(Some(1), 1, 13, true, Quality::Standard, &mut quality, &mut metrics), None);
    assert_eq!(
        policy.report(Some(1), 1, 13, true, Quality::Standard, &mut quality, &mut metrics),
        Some((Quality::Standard, Quality::Low))
    );
    assert_eq!(quality, 2);
    assert_eq!((metrics.video_quality_level, metrics.video_quality_changes), (2, 1));
    // A report between good and bad starts both counts anew.
    policy.observe(13, 2, 3);
    policy.observe(5, 2, 3);
    assert_eq!(policy.observe(13, 2, 3), 2);
    assert_eq!(policy.observe(13, 0, 3), 0);
    // Only a report that steps up needs a higher rung.
    assert_eq!(policy.observe(5, u64::MAX, 3), u64::MAX);
    policy.observe(13, u64::MAX, 3);
    assert_eq!(policy.observe(13, u64::MAX, 3), u64::MAX - 1);
}

#[test]
fn pictures_wait_for_their_deadline() {
    assert_eq!(remaining(0, 5), 0);
    assert_eq!(remaining(1_000, 1_000), 120_000);
    assert_eq!(remaining(1_000, 121_000), 0);
    assert_eq!(remaining(1_000, 999_000), 0);
    let mut metrics = Metrics::new();
    metrics.audio_age_us = 100;
    note_decoded(&mut metrics, 50, 90);
    assert_eq!(metrics.video_age_us, 40);
    assert_eq!(metrics.av_decode_skew.snapshot().p95_upper_us, Some(63));
    note_decoded(&mut metrics, 50, 40);
    note_decoded(&mut metrics, 0, 40);
    assert_eq!(metrics.video_frame_to_decode.snapshot().samples, 1);
    note_ready(&mut metrics, 50, 120_050);
    note_ready(&mut metrics, 0, 9);
    assert_eq!(metrics.video_rx_frames, 2);
    assert_eq!(metrics.video_ready_age.snapshot().samples, 1);
    note_sent(&mut metrics, 700);
    assert_eq!((metrics.video_tx_frames, metrics.video_tx_bytes), (1, 700));
    note_written(&mut metrics, 100_000_000);
    assert_eq!(metrics.video_backpressure, 0);
    note_written(&mut metrics, 100_000_001);
    assert_eq!(metrics.video_backpressure, 1);
    note_encoded(&mut metrics, 10, 15);
    assert_eq!(metrics.video_encode.snapshot().p50_upper_us, Some(7));
}

#[test]
fn creation_times_ride_on_packets() {
    assert_eq!(write_stamp(0x0102_0304_0506_0708), vec![1, 2, 3, 4, 5, 6, 7, 8]);
    assert_eq!(read_stamp(&Some(write_stamp(u64::MAX))), Some(u64::MAX));
    assert_eq!(read_stamp(&Some(vec![1; 7])), None);
    assert_eq!(read_stamp(&None), None);
    let list = vec![("x".to_string(), 3), ("y".to_string(), 260), ("y".to_string(), 5)];
    assert_eq!(find_extension(&list, "y"), Some(4));
    assert_eq!(find_extension(&list, "z"), None);
}
