use rcof::audio::{
    capture_sample, find_device, note_capture, playback_capacity, DeviceInfo, Playback,
    PlaybackClock, Profile, CAPACITY, FRAME, RATE,
};
use rcof::metrics::Metrics;
use rcof::queue::SampleQueue;

#[test]
fn playback_does_not_insert_silence_between_jittered_packets() {
    let mut clock = PlaybackClock::new();
    assert!(!clock.ready(80_000, 79_000));
    // Three contiguous 20 ms packets; the middle sender tick was 3 ms late.
    let mut played = 0;
    for (frame, jitter) in [0u64, 3_000, 0].into_iter().enumerate() {
        for sample in 0..FRAME {
            let due = 80_000 + (frame * FRAME + sample) as u64 * 1_000_000 / RATE as u64;
            if clock.ready(due + jitter, due) {
                played += 1;
            }
        }
    }
    assert_eq!(played, FRAME * 3);
    // An underrun starts a new stream and must honor the deadline again.
    clock = PlaybackClock::new();
    assert!(!clock.ready(200_000, 190_000));
    assert!(clock.ready(200_000, 200_000));
}

#[test]
fn profiles_trade_bandwidth_against_delay() {
    assert_eq!(Profile::Standard.packet_ms(), 20);
    assert_eq!(Profile::Efficient.packet_ms(), 40);
    assert_eq!(Profile::Minimum.packet_ms(), 60);
    assert_eq!(Profile::Standard.bitrate(), 24_000);
    assert_eq!(Profile::Efficient.bitrate(), 24_000);
    assert_eq!(Profile::Minimum.bitrate(), 16_000);
    assert!(!Profile::Standard.dtx());
    assert!(Profile::Efficient.dtx() && Profile::Minimum.dtx());
    assert_eq!(Profile::Minimum.label(), "Minimum · 16k · 60 ms");
    assert_eq!(Profile::default(), Profile::Standard);
}

#[test]
fn devices_are_found_by_name_and_ability() {
    let device = |name: Option<&str>, input: bool, output: bool| DeviceInfo {
        name: name.map(String::from),
        input,
        output,
    };
    let list = vec![
        device(None, true, true),
        device(Some("desk"), false, true),
        device(Some("desk"), true, false),
        device(Some("phone"), true, true),
    ];
    assert_eq!(find_device(&list, true, "desk"), Some(2));
    assert_eq!(find_device(&list, false, "desk"), Some(1));
    assert_eq!(find_device(&list, true, "phone"), Some(3));
    assert_eq!(find_device(&list, true, "lamp"), None);
}

#[test]
fn playback_queue_holds_more_than_the_playout_delay() {
    assert_eq!(playback_capacity(48_000, true), 11_520);
    assert_eq!(playback_capacity(48_000, false), 9_600);
    assert_eq!(playback_capacity(44_100, false), 8_820);
    assert_eq!(CAPACITY, 4800);
}

#[test]
fn full_capture_queue_drops_the_oldest() {
    let mut queue = SampleQueue::new(3);
    let mut metrics = Metrics::new();
    for value in 1..=5u32 {
        capture_sample(&mut queue, value, &mut metrics);
    }
    note_capture(&queue, &mut metrics);
    assert_eq!(metrics.captured_samples, 5);
    assert_eq!(metrics.capture_dropped, 2);
    assert_eq!(metrics.capture_peak, 3);
    assert_eq!(queue.capacity(), 3);
    assert_eq!(queue.pop(), Some((3, 0)));
    assert_eq!(queue.pop(), Some((4, 0)));
    assert_eq!(queue.len(), 1);
    queue.clear();
    assert_eq!(queue.pop(), None);
}

#[test]
fn playback_waits_for_its_reserve_and_then_for_its_deadline() {
    let mut queue = SampleQueue::new(1000);
    let mut metrics = Metrics::new();
    let mut playback = Playback::new(1000);
    // 1000 samples a second: 40 samples before playback begins.
    for value in 1..=39u32 {
        queue.push((value, 5_003_000));
    }
    assert_eq!(playback.fill(&mut queue, 4, 5_000_000, 0, &mut metrics), vec![0; 4]);
    assert_eq!(queue.len(), 39);
    // Nothing counts as missing before the first sound.
    assert_eq!(metrics.playback_missing, 0);
    queue.push((40, 0));
    // The samples are due 3 ms after the callback, so three places stay silent.
    let values = playback.fill(&mut queue, 6, 5_000_000, 0, &mut metrics);
    assert_eq!(values, vec![0, 0, 0, 1, 2, 3]);
    assert_eq!(metrics.audio_late_samples, 0);
    assert_eq!(metrics.playback_callback_peak, 6);
}

#[test]
fn underrun_is_counted_and_starts_a_new_stream() {
    let mut queue = SampleQueue::new(100);
    let mut metrics = Metrics::new();
    let mut playback = Playback::new(1000);
    for value in 1..=40u32 {
        queue.push((value, 1));
    }
    let values = playback.fill(&mut queue, 16, 50_000, 7, &mut metrics);
    assert_eq!(values, (1..=16).collect::<Vec<u32>>());
    // Due at 50 ms for samples of 1 µs: more than 20 ms late.
    assert_eq!(metrics.audio_late_samples, 16);
    assert_eq!(metrics.playback_lead_peak, 7);
    let values = playback.fill(&mut queue, 30, 60_000, 0, &mut metrics);
    assert_eq!(&values[..24], &(17..=40).collect::<Vec<u32>>()[..]);
    assert_eq!(&values[24..], &[0; 6]);
    assert_eq!(metrics.playback_missing, 6);
    assert!(!playback.ready);
    // The reserve is needed again.
    for value in 1..=39u32 {
        queue.push((value, 0));
    }
    assert_eq!(playback.fill(&mut queue, 2, 70_000, 0, &mut metrics), vec![0, 0]);
    assert_eq!(metrics.playback_missing, 8);
}

#[test]
fn long_packets_need_a_longer_reserve() {
    let mut queue = SampleQueue::new(10_000);
    let mut metrics = Metrics::new();
    metrics.rx_packet_samples = 2880;
    let mut playback = Playback::new(48_000);
    // 60 ms and 20 ms to spare: 3840 samples.
    for _ in 0..3839 {
        queue.push((9, 0));
    }
    assert_eq!(playback.fill(&mut queue, 1, 0, 0, &mut metrics), vec![0]);
    queue.push((9, 0));
    assert_eq!(playback.fill(&mut queue, 1, 0, 0, &mut metrics), vec![9]);
}
