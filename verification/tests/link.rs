use rcof::address::{Endpoint, Ip};
use rcof::double::Double;
use rcof::link::{age_default, queue_default, Config, ConfigError, Phase, Relay, SNAPSHOTS};
use rcof::shaper::{kind, Direction, Kind};

fn double(value: f64) -> Double {
    Double { bits: value.to_bits() }
}

fn loopback(port: u16) -> Endpoint {
    Endpoint { ip: Ip::V4(0x7f00_0001), port }
}

fn phase(at_s: f64) -> Phase {
    Phase {
        at_s: double(at_s),
        kbps: 0,
        delay_ms: 0,
        jitter_ms: 0,
        loss_percent: double(0.0),
        outage: false,
    }
}

fn config(duration_s: u64, phases: Vec<Phase>) -> Config {
    Config {
        a: loopback(1),
        b: loopback(2),
        relay_a: loopback(3),
        relay_b: loopback(4),
        duration_s,
        seed: 42,
        phases,
        queue_bytes: queue_default(),
        queue_ms: age_default(),
    }
}

#[test]
fn persistent_config_allows_phases_but_timed_config_checks_deadline() {
    let mut config = config(0, vec![phase(0.0), Phase { kbps: 128, ..phase(30.0) }]);
    assert!(config.validate().is_ok());
    config.duration_s = 20;
    assert!(config.validate().is_err());
    config.duration_s = 36;
    assert!(config.validate().is_ok());
}

#[test]
fn shaper_serializes_and_prioritizes_audio() {
    let config = Config { queue_bytes: 4096, queue_ms: 100, ..config(10, vec![]) };
    let phase = Phase { kbps: 128, ..phase(0.0) };
    let now = 1_000_000_000u64;
    let ms = 1_000_000u64;
    let mut direction = Direction::new(42, now);
    let mut payload = vec![0; 100];
    payload[0] = 0x80;
    payload[1] = 96;
    direction.enqueue(&payload, &phase, &config, now);
    payload[1] = 111;
    direction.enqueue(&payload, &phase, &config, now);
    assert!(direction.pump(&phase, &config, now).is_empty());
    assert_eq!(direction.flying.len(), 1);
    assert!(direction.flying[0].kind == Kind::Audio);
    assert_eq!(direction.counts.delivered_packets, 0);
    assert!(direction.pump(&phase, &config, now + 7 * ms).is_empty());
    assert_eq!(direction.counts.delivered_packets, 0);
    let sent = direction.pump(&phase, &config, now + 8 * ms);
    assert_eq!(sent.len(), 1);
    assert_eq!(sent[0].data, payload);
    assert_eq!(direction.counts.audio_delivered, 1);
    assert_eq!(direction.counts.video_delivered, 0);
    direction.flush_outage(now);
    assert_eq!(direction.bytes, 0);
    assert_eq!(direction.counts.outage_drops, 1);
}

#[test]
fn seeded_loss_is_repeatable_and_queue_is_bounded() {
    let cfg = Config {
        queue_bytes: 4096,
        queue_ms: 100,
        ..config(
            10,
            vec![Phase {
                kbps: 128,
                delay_ms: 50,
                jitter_ms: 10,
                loss_percent: double(10.0),
                ..phase(0.0)
            }],
        )
    };
    let mut a = Direction::new(42, 0);
    let mut b = Direction::new(42, 5);
    let mut payload = vec![0; 1000];
    payload[0] = 0x80;
    payload[1] = 96;
    for i in 0..100 {
        a.enqueue(&payload, &cfg.phases[0], &cfg, 1000 + i);
        b.enqueue(&payload, &cfg.phases[0], &cfg, 2000 + 3 * i);
    }
    assert_eq!(a.counts.loss_drops, b.counts.loss_drops);
    assert!(a.counts.loss_drops > 0);
    assert!(a.bytes <= 4096);
    assert!(a.counts.queue_drops > 0);
    a.flush_outage(9000);
    assert_eq!(a.bytes, 0);
}

#[test]
fn losses_follow_the_floating_point_rule() {
    // The same generator, with the comparison made in floating point.
    for (seed, loss) in [(42u64, 10.0f64), (7, 0.1), (0, 50.0), (u64::MAX, 99.9), (3, 33.333), (9, 100.0)] {
        let cfg = config(0, vec![]);
        let phase = Phase { loss_percent: double(loss), outage: false, ..phase(0.0) };
        let mut direction = Direction::new(seed, 0);
        let mut state = seed.max(1);
        let mut lost = 0;
        let mut next = || {
            state ^= state << 13;
            state ^= state >> 7;
            state ^= state << 17;
            (state >> 11) as f64 / ((1u64 << 53) as f64)
        };
        for _ in 0..2000 {
            if next() * 100.0 < loss {
                lost += 1;
            } else {
                next();
            }
            direction.enqueue(&[0u8; 4], &phase, &cfg, 0);
            direction.flush_outage(0);
            assert_eq!(direction.counts.loss_drops, lost);
        }
    }
}

#[test]
fn delays_follow_the_floating_point_rule() {
    let cfg = Config { queue_bytes: 1_048_576, ..config(0, vec![]) };
    let mut state = 11u64;
    let mut next = || {
        state ^= state << 13;
        state ^= state >> 7;
        state ^= state << 17;
        (state >> 11) as f64 / ((1u64 << 53) as f64)
    };
    let mut direction = Direction::new(11, 0);
    for i in 0..500u64 {
        let (delay, jitter) = ((i * 4) as u32, (i * 3) as u32);
        let phase = Phase { delay_ms: delay, jitter_ms: jitter, ..phase(0.0) };
        direction.enqueue(&[1, 2, 3], &phase, &cfg, 1000);
        next();
        let wanted = (delay as f64 + (next() * 2.0 - 1.0) * jitter as f64).max(0.0) / 1000.0;
        let wanted = std::time::Duration::from_secs_f64(wanted).as_nanos() as u64;
        let got = direction.high[i as usize].due - 1000;
        assert_eq!(got, wanted);
    }
}

#[test]
fn serialization_follows_the_floating_point_rule() {
    for kbps in [1u32, 7, 64, 128, 300, 1000, 1024, 3072, 99_999, u32::MAX] {
        for length in (0usize..1500).step_by(3) {
            let cfg = config(0, vec![]);
            let phase = Phase { kbps, ..phase(0.0) };
            let mut direction = Direction::new(1, 0);
            direction.enqueue(&vec![0; length], &phase, &cfg, 0);
            direction.pump(&phase, &cfg, 0);
            let wanted = (length + 28) as f64 * 8.0 / (kbps as f64 * 1000.0);
            let wanted = std::time::Duration::from_secs_f64(wanted).as_nanos() as u64;
            assert_eq!(direction.free, wanted);
        }
    }
}

#[test]
fn serialization_rounds_as_seconds_do() {
    // 31 bytes take 242187.5 ns, and the quotient in seconds lies just below that.
    let cfg = config(0, vec![]);
    let phase = Phase { kbps: 1024, ..phase(0.0) };
    let mut direction = Direction::new(1, 0);
    direction.enqueue(&[0; 3], &phase, &cfg, 0);
    direction.pump(&phase, &cfg, 0);
    assert_eq!(direction.free, 242_187);
}

#[test]
fn datagrams_are_told_apart() {
    let mut data = [0u8; 12];
    data[0] = 0x80;
    data[1] = 111;
    assert_eq!(kind(&data), Kind::Audio);
    data[1] = 128 + 111;
    assert_eq!(kind(&data), Kind::Audio);
    data[1] = 96;
    assert_eq!(kind(&data), Kind::Video);
    data[1] = 128 + 96;
    assert_eq!(kind(&data), Kind::Video);
    data[1] = 200;
    assert_eq!(kind(&data), Kind::Control);
    data[1] = 111;
    data[0] = 0x40;
    assert_eq!(kind(&data), Kind::Control);
    assert_eq!(kind(&[0x80, 111]), Kind::Control);
}

#[test]
fn audio_evicts_pictures_and_pictures_evict_nothing() {
    let cfg = Config { queue_bytes: 1500, ..config(0, vec![]) };
    let calm = phase(0.0);
    let mut direction = Direction::new(1, 0);
    let mut picture = vec![0; 572];
    picture[0] = 0x80;
    picture[1] = 96;
    let mut sound = picture.clone();
    sound[1] = 111;
    direction.enqueue(&picture, &calm, &cfg, 0);
    direction.enqueue(&picture, &calm, &cfg, 0);
    assert_eq!(direction.low.len(), 2);
    // Four fifths of the queue are full.
    direction.enqueue(&picture, &calm, &cfg, 0);
    assert_eq!(direction.low.len(), 2);
    assert_eq!(direction.counts.queue_drops, 1);
    direction.enqueue(&sound, &calm, &cfg, 0);
    assert_eq!(direction.low.len(), 1);
    assert_eq!(direction.high.len(), 1);
    assert_eq!(direction.counts.queue_drops, 2);
    direction.enqueue(&sound, &calm, &cfg, 0);
    direction.enqueue(&sound, &calm, &cfg, 0);
    assert_eq!(direction.low.len(), 0);
    assert_eq!(direction.high.len(), 2);
    assert_eq!(direction.counts.queue_drops, 4);
    assert_eq!(direction.counts.peak_queue_bytes, 1200);
    // Every datagram is accounted for.
    assert_eq!(direction.counts.received_packets, 6);
}

#[test]
fn waiting_datagrams_become_stale() {
    let cfg = Config { queue_ms: 150, ..config(0, vec![]) };
    let slow = Phase { kbps: 8, ..phase(0.0) };
    let mut direction = Direction::new(1, 0);
    for _ in 0..3 {
        direction.enqueue(&[0; 972], &slow, &cfg, 0);
    }
    // A thousand bytes take a second.
    direction.pump(&slow, &cfg, 0);
    assert_eq!(direction.free, 1_000_000_000);
    direction.pump(&slow, &cfg, 150_000_000);
    assert_eq!(direction.counts.stale_drops, 0);
    direction.pump(&slow, &cfg, 150_000_001);
    assert_eq!(direction.counts.stale_drops, 2);
    assert_eq!(direction.bytes, 1000);
    assert_eq!(direction.pump(&slow, &cfg, 1_000_000_000).len(), 1);
    assert_eq!(direction.counts.control_delivered, 1);
    assert_eq!(direction.counts.delivered_ip_bytes, 1000);
}

#[test]
fn outage_drops_everything() {
    let cfg = config(0, vec![]);
    let mut direction = Direction::new(1, 0);
    direction.enqueue(&[0; 10], &phase(0.0), &cfg, 0);
    let outage = Phase { outage: true, ..phase(0.0) };
    direction.enqueue(&[0; 10], &outage, &cfg, 0);
    assert!(direction.pump(&outage, &cfg, 1).is_empty());
    assert_eq!(direction.counts.outage_drops, 2);
    assert_eq!(direction.high.len(), 0);
}

#[test]
fn faults_of_a_config_are_told_in_order() {
    let good = config(36, vec![phase(0.0), phase(1.5)]);
    assert_eq!(good.validate(), Ok(()));
    let mut c = good.clone();
    c.a.port = 0;
    assert_eq!(c.validate(), Err(ConfigError::Endpoint));
    c.a = Endpoint { ip: Ip::V6(1), port: 1 };
    assert_eq!(c.validate(), Err(ConfigError::Endpoint));
    c.a = loopback(4);
    assert_eq!(c.validate(), Err(ConfigError::Distinct));
    let mut c = good.clone();
    c.duration_s = 3601;
    assert_eq!(c.validate(), Err(ConfigError::Duration));
    let mut c = good.clone();
    c.queue_bytes = 1499;
    assert_eq!(c.validate(), Err(ConfigError::Queue));
    c.queue_bytes = 1500;
    c.queue_ms = 2001;
    assert_eq!(c.validate(), Err(ConfigError::Queue));
    assert_eq!(config(36, vec![]).validate(), Err(ConfigError::FirstPhase));
    assert_eq!(config(36, vec![phase(0.5)]).validate(), Err(ConfigError::FirstPhase));
    assert_eq!(config(36, vec![phase(-0.0)]).validate(), Ok(()));
    assert_eq!(config(36, vec![phase(0.0), phase(f64::NAN)]).validate(), Err(ConfigError::PhaseTime));
    assert_eq!(config(36, vec![phase(0.0), phase(f64::INFINITY)]).validate(), Err(ConfigError::PhaseTime));
    assert_eq!(config(36, vec![phase(0.0), phase(-1.0)]).validate(), Err(ConfigError::PhaseTime));
    assert_eq!(config(36, vec![phase(0.0), phase(36.0)]).validate(), Err(ConfigError::PhaseTime));
    assert_eq!(config(36, vec![phase(0.0), phase(35.999)]).validate(), Ok(()));
    assert_eq!(config(36, vec![phase(0.0), phase(2.0), phase(2.0)]).validate(), Err(ConfigError::PhaseOrder));
    let lossy = |loss: f64| config(36, vec![Phase { loss_percent: double(loss), ..phase(0.0) }]);
    assert_eq!(lossy(100.0).validate(), Ok(()));
    assert_eq!(lossy(-0.0).validate(), Ok(()));
    assert_eq!(lossy(100.00000000000001).validate(), Err(ConfigError::Impairment));
    assert_eq!(lossy(f64::NAN).validate(), Err(ConfigError::Impairment));
    let mut c = good.clone();
    c.phases[1].delay_ms = 2001;
    assert_eq!(c.validate(), Err(ConfigError::Impairment));
    assert_eq!(ConfigError::PhaseOrder.message(), "phases must be ordered");
}

#[test]
fn numbers_are_ordered_as_their_values() {
    let list = [0.0f64, 5e-324, 1e-310, 1e-300, 0.1, 1.0, 1.0000000000000002, 3.5, 99.9, 1e300];
    for a in list {
        for b in list {
            assert_eq!(double(a).less(double(b)), a < b);
        }
    }
    assert!(double(-0.0).is_zero() && double(-0.0).is_natural());
    assert!(!double(-1.0).is_natural());
    assert!(!double(f64::INFINITY).is_finite());
}

#[test]
fn relay_listens_to_its_participants_alone() {
    let c = Config { seed: 0, ..config(2, vec![phase(0.0), Phase { outage: true, ..phase(1.0) }]) };
    let mut relay = Relay::new(c, 0);
    assert_eq!(relay.config.phase_at(double(0.0)), 0);
    assert_eq!(relay.config.phase_at(double(0.999)), 0);
    assert_eq!(relay.config.phase_at(double(1.0)), 1);
    assert!(relay.receive(true, loopback(1), &[1], 0, 0));
    assert!(!relay.receive(true, loopback(2), &[1], 0, 0));
    assert!(relay.receive(false, loopback(2), &[2], 0, 0));
    let out = relay.tick(0, 10, double(0.0), 0);
    assert_eq!(out.to_b.len(), 1);
    assert_eq!(out.to_b[0].data, vec![1]);
    assert_eq!(out.to_a[0].data, vec![2]);
    assert!(!out.done && relay.snapshots.is_empty());
    assert_eq!(relay.ab.counts.unexpected_sources, 1);
    let out = relay.tick(1, 20, double(1.0), 1);
    assert!(!out.done);
    assert_eq!(relay.snapshots.len(), 1);
    assert_eq!(relay.snapshots[0].phase, 1);
    assert_eq!(relay.snapshots[0].a_to_b.delivered_packets, 1);
    assert!(relay.tick(1, 30, double(2.0), 2).done);
    for second in 3..(SNAPSHOTS as u64 + 10) {
        relay.tick(1, 40, double(second as f64), second);
    }
    assert_eq!(relay.snapshots.len(), SNAPSHOTS);
}
