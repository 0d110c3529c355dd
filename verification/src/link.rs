//! The laboratory of an impaired link between two participants on one host.
use crate::address::Endpoint;
use crate::double;
use crate::double::Double;
use crate::shaper::{Counts, Direction, Packet};
use std::collections::VecDeque;
use vstd::prelude::*;

verus! {

/// How a link behaves from a time on.
#[derive(Clone, Copy, Debug, PartialEq, Eq, Structural)]
pub struct Phase {
    /// Seconds after the start.
    pub at_s: Double,
    /// The rate of a direction in kilobits per second, headers counted; zero is no limit.
    pub kbps: u32,
    pub delay_ms: u32,
    pub jitter_ms: u32,
    pub loss_percent: Double,
    pub outage: bool,
}

/// What a link is made of: the participants, the two sides of the relay between them, and how the
/// link behaves in the course of time.
#[derive(Clone, Debug)]
pub struct Config {
    pub a: Endpoint,
    pub b: Endpoint,
    pub relay_a: Endpoint,
    pub relay_b: Endpoint,
    pub duration_s: u64,
    pub seed: u64,
    pub phases: Vec<Phase>,
    pub queue_bytes: usize,
    pub queue_ms: u64,
}

/// The bytes that a queue holds where nothing else is said.
pub fn queue_default() -> (r: usize)
    ensures
        r == 32768,
{
    32768
}

/// The milliseconds that a datagram may wait where nothing else is said.
pub fn age_default() -> (r: u64)
    ensures
        r == 150,
{
    150
}

/// What can be wrong with the description of a link.
#[derive(Clone, Copy, Debug, PartialEq, Eq, Structural)]
pub enum ConfigError {
    Endpoint,
    Distinct,
    Duration,
    Queue,
    FirstPhase,
    PhaseTime,
    PhaseOrder,
    Impairment,
}

impl ConfigError {
    /// The error in words.
    pub fn message(self) -> (r: &'static str)
        ensures
            r@ == (match self {
                ConfigError::Endpoint => "link endpoints must be IPv4 loopback with nonzero ports"@,
                ConfigError::Distinct => "four distinct endpoints required"@,
                ConfigError::Duration => "duration must be 0 (until interrupted) or 1..3600 seconds"@,
                ConfigError::Queue => "invalid queue bounds"@,
                ConfigError::FirstPhase => "first phase must start at zero"@,
                ConfigError::PhaseTime => "invalid phase time"@,
                ConfigError::PhaseOrder => "phases must be ordered"@,
                ConfigError::Impairment => "invalid impairment"@,
            }),
    {
        match self {
            ConfigError::Endpoint => "link endpoints must be IPv4 loopback with nonzero ports",
            ConfigError::Distinct => "four distinct endpoints required",
            ConfigError::Duration => "duration must be 0 (until interrupted) or 1..3600 seconds",
            ConfigError::Queue => "invalid queue bounds",
            ConfigError::FirstPhase => "first phase must start at zero",
            ConfigError::PhaseTime => "invalid phase time",
            ConfigError::PhaseOrder => "phases must be ordered",
            ConfigError::Impairment => "invalid impairment",
        }
    }
}

/// One, in the units of a number's value.
pub open spec fn one() -> int {
    vstd::arithmetic::power2::pow2(1074) as int
}

impl Phase {
    /// Whether the phase begins at a time at which the link runs.
    pub open spec fn timely(self, duration_s: u64) -> bool {
        &&& self.at_s.finite()
        &&& self.at_s.scaled() >= 0
        &&& duration_s == 0 || self.at_s.scaled() < duration_s * one()
    }

    /// Whether the impairments are within their bounds.
    pub open spec fn bounded(self) -> bool {
        &&& self.loss_percent.finite()
        &&& 0 <= self.loss_percent.scaled() <= 100 * one()
        &&& self.delay_ms <= 2000
        &&& self.jitter_ms <= 2000
    }

    fn is_timely(&self, duration_s: u64) -> (r: bool)
        requires
            duration_s <= 3600,
        ensures
            r == self.timely(duration_s),
    {
        if !self.at_s.is_natural() {
            return false;
        }
        if duration_s == 0 {
            return true;
        }
        self.at_s.less(double::from_parts(duration_s, 0))
    }

    fn is_bounded(&self) -> (r: bool)
        ensures
            r == self.bounded(),
    {
        if !self.loss_percent.is_natural() {
            return false;
        }
        let hundred = double::from_parts(100, 0);
        !hundred.less(self.loss_percent) && self.delay_ms <= 2000 && self.jitter_ms <= 2000
    }
}

/// What is wrong with one of the phases.
pub open spec fn phase_fault(phases: Seq<Phase>, duration_s: u64, i: int) -> Option<ConfigError> {
    if !phases[i].timely(duration_s) {
        Some(ConfigError::PhaseTime)
    } else if i > 0 && phases[i].at_s.scaled() <= phases[i - 1].at_s.scaled() {
        Some(ConfigError::PhaseOrder)
    } else if !phases[i].bounded() {
        Some(ConfigError::Impairment)
    } else {
        None
    }
}

/// What is wrong with the first phases, up to some number of them.
pub open spec fn phases_fault(phases: Seq<Phase>, duration_s: u64, count: nat) -> Option<
    ConfigError,
>
    decreases count,
{
    if count == 0 {
        None
    } else {
        match phases_fault(phases, duration_s, (count - 1) as nat) {
            Some(error) => Some(error),
            None => phase_fault(phases, duration_s, count - 1),
        }
    }
}

/// Where no phase is at fault, each of them is sound.
proof fn lemma_phases(phases: Seq<Phase>, duration_s: u64, count: nat)
    requires
        phases_fault(phases, duration_s, count) is None,
    ensures
        forall|i: int|
            0 <= i < count ==> phase_fault(phases, duration_s, i) is None
                && #[trigger] phases[i].timely(duration_s) && phases[i].bounded(),
    decreases count,
{
    if count > 0 {
        lemma_phases(phases, duration_s, (count - 1) as nat);
    }
}

/// A fault of an early phase is a fault of the whole.
proof fn lemma_fault_stays(phases: Seq<Phase>, duration_s: u64, early: nat, count: nat)
    requires
        early <= count,
        phases_fault(phases, duration_s, early) is Some,
    ensures
        phases_fault(phases, duration_s, count) == phases_fault(phases, duration_s, early),
    decreases count,
{
    if early < count {
        lemma_fault_stays(phases, duration_s, early, (count - 1) as nat);
    }
}

impl Config {
    /// Whether an endpoint is one that the link may use.
    pub open spec fn usable(endpoint: Endpoint) -> bool {
        endpoint.ip.local() && endpoint.ip is V4 && endpoint.port > 0
    }

    /// Whether the four endpoints differ from one another.
    pub open spec fn distinct(self) -> bool {
        &&& self.a != self.b && self.a != self.relay_a && self.a != self.relay_b
        &&& self.b != self.relay_a && self.b != self.relay_b
        &&& self.relay_a != self.relay_b
    }

    /// What is wrong with the description of a link, from what is tested first to what is tested
    /// last.
    pub open spec fn fault(self) -> Option<ConfigError> {
        if !(Config::usable(self.a) && Config::usable(self.b) && Config::usable(self.relay_a)
            && Config::usable(self.relay_b)) {
            Some(ConfigError::Endpoint)
        } else if !self.distinct() {
            Some(ConfigError::Distinct)
        } else if self.duration_s > 3600 {
            Some(ConfigError::Duration)
        } else if !(1500 <= self.queue_bytes <= 1_048_576 && 1 <= self.queue_ms <= 2000) {
            Some(ConfigError::Queue)
        } else if self.phases@.len() == 0 || !self.phases@[0].at_s.finite()
            || self.phases@[0].at_s.scaled() != 0 {
            Some(ConfigError::FirstPhase)
        } else {
            phases_fault(self.phases@, self.duration_s, self.phases@.len())
        }
    }

    fn is_usable(endpoint: Endpoint) -> (r: bool)
        ensures
            r == Config::usable(endpoint),
    {
        endpoint.ip.is_loopback() && endpoint.ip.is_ipv4() && endpoint.port > 0
    }

    /// Checks the description of a link.
    pub fn validate(&self) -> (r: Result<(), ConfigError>)
        ensures
            match self.fault() {
                Some(error) => r == Err::<(), _>(error),
                None => r is Ok,
            },
    {
        if !(Config::is_usable(self.a) && Config::is_usable(self.b) && Config::is_usable(
            self.relay_a,
        ) && Config::is_usable(self.relay_b)) {
            return Err(ConfigError::Endpoint);
        }
        if self.a == self.b || self.a == self.relay_a || self.a == self.relay_b || self.b
            == self.relay_a || self.b == self.relay_b || self.relay_a == self.relay_b {
            return Err(ConfigError::Distinct);
        }
        if self.duration_s > 3600 {
            return Err(ConfigError::Duration);
        }
        if self.queue_bytes < 1500 || self.queue_bytes > 1_048_576 || self.queue_ms < 1
            || self.queue_ms > 2000 {
            return Err(ConfigError::Queue);
        }
        if self.phases.len() == 0 || !self.phases[0].at_s.is_zero() {
            return Err(ConfigError::FirstPhase);
        }
        let mut i: usize = 0;
        while i < self.phases.len()
            invariant
                i <= self.phases@.len(),
                self.duration_s <= 3600,
                phases_fault(self.phases@, self.duration_s, i as nat) is None,
                self.fault() == phases_fault(
                    self.phases@,
                    self.duration_s,
                    self.phases@.len(),
                ),
            decreases self.phases@.len() - i,
        {
            proof {
                lemma_phases(self.phases@, self.duration_s, i as nat);
                if phases_fault(self.phases@, self.duration_s, (i + 1) as nat) is Some {
                    lemma_fault_stays(
                        self.phases@,
                        self.duration_s,
                        (i + 1) as nat,
                        self.phases@.len(),
                    );
                }
            }
            if !self.phases[i].is_timely(self.duration_s) {
                return Err(ConfigError::PhaseTime);
            }
            if i > 0 && !self.phases[i - 1].at_s.less(self.phases[i].at_s) {
                return Err(ConfigError::PhaseOrder);
            }
            if !self.phases[i].is_bounded() {
                return Err(ConfigError::Impairment);
            }
            i += 1;
        }
        Ok(())
    }

    /// Whether a phase is the last that has begun.
    pub open spec fn is_current(self, elapsed: Double, i: int) -> bool {
        &&& 0 <= i < self.phases@.len()
        &&& self.phases@[i].at_s.scaled() <= elapsed.scaled()
        &&& forall|k: int|
            i < k < self.phases@.len() ==> (#[trigger] self.phases@[k]).at_s.scaled()
                > elapsed.scaled()
    }

    /// The phase that the link is in, so many seconds after the start.
    pub fn phase_at(&self, elapsed: Double) -> (r: usize)
        requires
            self.fault() is None,
            elapsed.finite() && elapsed.scaled() >= 0,
        ensures
            self.is_current(elapsed, r as int),
    {
        proof {
            lemma_phases(self.phases@, self.duration_s, self.phases@.len());
            assert forall|k: int| 0 <= k < self.phases@.len() implies (
            #[trigger] self.phases@[k]).at_s.finite() && self.phases@[k].at_s.scaled() >= 0 by {
                assert(self.phases@[k].timely(self.duration_s));
            }
        }
        let mut i: usize = self.phases.len() - 1;
        while i > 0 && elapsed.less(self.phases[i].at_s)
            invariant
                i < self.phases@.len(),
                elapsed.finite() && elapsed.scaled() >= 0,
                forall|k: int|
                    0 <= k < self.phases@.len() ==> (#[trigger] self.phases@[k]).at_s.finite()
                        && self.phases@[k].at_s.scaled() >= 0,
                forall|k: int|
                    i < k < self.phases@.len() ==> (#[trigger] self.phases@[k]).at_s.scaled()
                        > elapsed.scaled(),
            decreases i,
        {
            i -= 1;
        }
        i
    }
}

/// At every time exactly one phase is the current one.
pub proof fn law_one_phase_at_a_time(config: Config, elapsed: Double, i: int, j: int)
    requires
        config.is_current(elapsed, i),
        config.is_current(elapsed, j),
    ensures
        i == j,
{
}

/// What the relay had counted at some second of its run.
#[derive(Clone, Copy, Debug, PartialEq, Eq, Structural)]
pub struct Snapshot {
    pub elapsed_s: Double,
    pub phase: usize,
    pub a_to_b: Counts,
    pub b_to_a: Counts,
}

/// How many snapshots are kept.
pub const SNAPSHOTS: usize = 3600;

/// The relay between two participants.
pub struct Relay {
    pub config: Config,
    pub ab: Direction,
    pub ba: Direction,
    pub last_second: u64,
    pub snapshots: VecDeque<Snapshot>,
}

/// What a regular look at the relay hands out, and whether the relay has run for long enough.
pub struct Deliveries {
    pub to_b: Vec<Packet>,
    pub to_a: Vec<Packet>,
    pub done: bool,
}

/// The snapshots with one more: the oldest makes room where there are enough.
pub open spec fn recorded(list: Seq<Snapshot>, snapshot: Snapshot) -> Seq<Snapshot> {
    if list.len() == SNAPSHOTS {
        list.drop_first().push(snapshot)
    } else {
        list.push(snapshot)
    }
}

/// The seed of the direction back.
pub open spec fn other_seed(seed: u64) -> u64 {
    seed.wrapping_add(0x9e37_79b9)
}

/// The two directions of a relay never lose by the same draws, whatever the seed.
pub proof fn law_directions_draw_apart(seed: u64, now: u64)
    ensures
        crate::shaper::LinkModel::fresh(seed, now).rng != crate::shaper::LinkModel::fresh(
            other_seed(seed),
            now,
        ).rng,
{
}

impl Relay {
    /// What holds of a relay at all times.
    pub open spec fn wf(self) -> bool {
        &&& self.config.fault() is None
        &&& self.ab@.wf()
        &&& self.ba@.wf()
        &&& self.snapshots@.len() <= SNAPSHOTS
    }

    /// A relay that has seen nothing. The two directions lose datagrams independently.
    pub fn new(config: Config, now: u64) -> (r: Self)
        requires
            config.fault() is None,
        ensures
            r.wf(),
            r.config == config,
            r.ab@ == crate::shaper::LinkModel::fresh(config.seed, now),
            r.ba@ == crate::shaper::LinkModel::fresh(config.seed.wrapping_add(0x9e37_79b9), now),
            r.ba@ == crate::shaper::LinkModel::fresh(other_seed(config.seed), now),
            r.last_second == 0,
            r.snapshots@ == Seq::<Snapshot>::empty(),
    {
        let ab = Direction::new(config.seed, now);
        let ba = Direction::new(config.seed.wrapping_add(0x9e37_79b9), now);
        Relay { config, ab, ba, last_second: 0, snapshots: VecDeque::new() }
    }

    /// Takes in a datagram that came to one side of the relay. Only the participant on that side
    /// is listened to.
    pub fn receive(
        &mut self,
        from_a: bool,
        from: Endpoint,
        data: &[u8],
        phase: usize,
        now: u64,
    ) -> (r: bool)
        requires
            old(self).wf(),
            phase < old(self).config.phases@.len(),
            now <= crate::shaper::CLOCK_LIMIT,
            data@.len() + 28 + crate::shaper::QUEUE_LIMIT <= usize::MAX,
            ({
                let counts = if from_a {
                    old(self).ab.counts
                } else {
                    old(self).ba.counts
                };
                &&& counts.received_packets < u64::MAX
                &&& counts.received_ip_bytes + data@.len() + 28 <= u64::MAX
                &&& counts.unexpected_sources < u64::MAX
            }),
        ensures
            final(self).wf(),
            final(self).config == old(self).config,
            final(self).last_second == old(self).last_second,
            final(self).snapshots == old(self).snapshots,
            r == (from == (if from_a {
                old(self).config.a
            } else {
                old(self).config.b
            })),
            from_a ==> final(self).ba == old(self).ba && final(self).ab@ == (if r {
                old(self).ab@.enqueued(
                    data@,
                    old(self).config.phases@[phase as int],
                    old(self).config.queue_bytes,
                    now,
                )
            } else {
                crate::shaper::LinkModel {
                    counts: old(self).ab.counts.stray(),
                    ..old(self).ab@
                }
            }),
            !from_a ==> final(self).ab == old(self).ab && final(self).ba@ == (if r {
                old(self).ba@.enqueued(
                    data@,
                    old(self).config.phases@[phase as int],
                    old(self).config.queue_bytes,
                    now,
                )
            } else {
                crate::shaper::LinkModel {
                    counts: old(self).ba.counts.stray(),
                    ..old(self).ba@
                }
            }),
    {
        let current = self.config.phases[phase];
        if from_a {
            if from == self.config.a {
                self.ab.enqueue(data, &current, &self.config, now);
                true
            } else {
                self.ab.counts.unexpected_sources = self.ab.counts.unexpected_sources + 1;
                false
            }
        } else {
            if from == self.config.b {
                self.ba.enqueue(data, &current, &self.config, now);
                true
            } else {
                self.ba.counts.unexpected_sources = self.ba.counts.unexpected_sources + 1;
                false
            }
        }
    }

    /// A regular look at the relay: both directions move on, and each new second a snapshot is
    /// kept.
    pub fn tick(&mut self, phase: usize, now: u64, elapsed: Double, second: u64) -> (r: Deliveries)
        requires
            old(self).wf(),
            phase < old(self).config.phases@.len(),
            now <= crate::shaper::CLOCK_LIMIT,
        ensures
            final(self).wf(),
            final(self).config == old(self).config,
            ({
                let current = old(self).config.phases@[phase as int];
                let queue_ms = old(self).config.queue_ms;
                &&& final(self).ab@ == old(self).ab@.pumped(current, queue_ms, now)
                &&& final(self).ba@ == old(self).ba@.pumped(current, queue_ms, now)
                &&& crate::shaper::datagrams(r.to_b@) == old(self).ab@.delivered(
                    current,
                    queue_ms,
                    now,
                )
                &&& crate::shaper::datagrams(r.to_a@) == old(self).ba@.delivered(
                    current,
                    queue_ms,
                    now,
                )
            }),
            final(self).last_second == second,
            final(self).snapshots@ == (if second == old(self).last_second {
                old(self).snapshots@
            } else {
                recorded(
                    old(self).snapshots@,
                    Snapshot {
                        elapsed_s: elapsed,
                        phase,
                        a_to_b: final(self).ab.counts,
                        b_to_a: final(self).ba.counts,
                    },
                )
            }),
            r.done == (old(self).config.duration_s > 0 && second >= old(self).config.duration_s),
    {
        let current = self.config.phases[phase];
        let to_b = self.ab.pump(&current, &self.config, now);
        let to_a = self.ba.pump(&current, &self.config, now);
        if second != self.last_second {
            self.last_second = second;
            if self.snapshots.len() == SNAPSHOTS {
                let _ = self.snapshots.pop_front();
            }
            self.snapshots.push_back(
                Snapshot {
                    elapsed_s: elapsed,
                    phase,
                    a_to_b: self.ab.counts,
                    b_to_a: self.ba.counts,
                },
            );
        }
        Deliveries {
            to_b,
            to_a,
            done: self.config.duration_s > 0 && second >= self.config.duration_s,
        }
    }
}

/// Whether an endpoint is on this host: an address of the form 127.x.x.x, and a port.
pub open spec fn on_this_host(endpoint: Endpoint) -> bool {
    endpoint.port != 0 && (endpoint.ip matches crate::address::Ip::V4(value) && 0x7f00_0000 <= value
        <= 0x7fff_ffff)
}

/// Whether a phase is one that a description may hold: it begins when the link runs, loses no less
/// than nothing and no more than all, and delays by two seconds at most, give or take as much. A
/// number's value is counted in units of which `pow2(1074)` make one.
pub open spec fn is_allowed(phase: Phase, duration_s: u64) -> bool {
    &&& phase.at_s.finite() && phase.loss_percent.finite()
    &&& 0 <= phase.at_s.scaled()
    &&& duration_s > 0 ==> phase.at_s.scaled() < duration_s * vstd::arithmetic::power2::pow2(1074)
    &&& 0 <= phase.loss_percent.scaled() <= 100 * vstd::arithmetic::power2::pow2(1074)
    &&& phase.delay_ms <= 2000 && phase.jitter_ms <= 2000
}

/// A description of a link is accepted exactly if its four endpoints are different ones on this host,
/// it runs for an hour at most or without end, its queue holds 1500 bytes to a mebibyte for one
/// millisecond to two seconds, and its phases are allowed ones, the first of them at the start and
/// each later than the one before.
pub proof fn law_valid_descriptions(config: Config)
    ensures
        config.fault() is None <==> {
            &&& on_this_host(config.a) && on_this_host(config.b) && on_this_host(config.relay_a)
                && on_this_host(config.relay_b)
            &&& config.a != config.b && config.a != config.relay_a && config.a != config.relay_b
            &&& config.b != config.relay_a && config.b != config.relay_b && config.relay_a
                != config.relay_b
            &&& config.duration_s <= 3600
            &&& 1500 <= config.queue_bytes <= 1024 * 1024
            &&& 1 <= config.queue_ms <= 2000
            &&& config.phases@.len() > 0
            &&& config.phases@[0].at_s.scaled() == 0
            &&& forall|i: int|
                0 <= i < config.phases@.len() ==> is_allowed(
                    #[trigger] config.phases@[i],
                    config.duration_s,
                )
            &&& forall|i: int|
                0 < i < config.phases@.len() ==> config.phases@[i - 1].at_s.scaled() < (
                #[trigger] config.phases@[i]).at_s.scaled()
        },
{
    let phases = config.phases@;
    let duration = config.duration_s;
    lemma_usable(config.a);
    lemma_usable(config.b);
    lemma_usable(config.relay_a);
    lemma_usable(config.relay_b);
    if phases_fault(phases, duration, phases.len()) is None {
        lemma_phases(phases, duration, phases.len());
        assert forall|i: int| 0 <= i < phases.len() implies is_allowed(
            #[trigger] phases[i],
            duration,
        ) by {
            assert(phases[i].timely(duration) && phases[i].bounded());
        }
        assert forall|i: int| 0 < i < phases.len() implies phases[i - 1].at_s.scaled() < (
        #[trigger] phases[i]).at_s.scaled() by {
            assert(phase_fault(phases, duration, i) is None);
        }
    } else {
        lemma_some_fault(phases, duration, phases.len());
        let i = choose|i: int|
            0 <= i < phases.len() && #[trigger] phase_fault(phases, duration, i) is Some;
        if is_allowed(phases[i], duration) && (i > 0 ==> phases[i - 1].at_s.scaled()
            < phases[i].at_s.scaled()) {
            assert(phases[i].timely(duration) && phases[i].bounded());
            assert(false);
        }
    }
}

proof fn lemma_usable(endpoint: Endpoint)
    ensures
        Config::usable(endpoint) == on_this_host(endpoint),
{
}

proof fn lemma_some_fault(phases: Seq<Phase>, duration_s: u64, count: nat)
    requires
        phases_fault(phases, duration_s, count) is Some,
    ensures
        exists|i: int| 0 <= i < count && #[trigger] phase_fault(phases, duration_s, i) is Some,
    decreases count,
{
    if count > 0 {
        if phases_fault(phases, duration_s, (count - 1) as nat) is Some {
            lemma_some_fault(phases, duration_s, (count - 1) as nat);
        } else {
            assert(phase_fault(phases, duration_s, count - 1) is Some);
        }
    }
}

/// Of what is wrong with a description the first is told: the endpoints, that they differ, the
/// duration, the queue, the first phase, and then the phases one after the other.
pub proof fn law_first_fault_is_told(config: Config)
    ensures
        ({
            let hosts = on_this_host(config.a) && on_this_host(config.b) && on_this_host(
                config.relay_a,
            ) && on_this_host(config.relay_b);
            let differ = config.a != config.b && config.a != config.relay_a && config.a
                != config.relay_b && config.b != config.relay_a && config.b != config.relay_b
                && config.relay_a != config.relay_b;
            let lasting = config.duration_s <= 3600;
            let queue = 1500 <= config.queue_bytes <= 1024 * 1024 && 1 <= config.queue_ms <= 2000;
            let first = config.phases@.len() > 0 && config.phases@[0].at_s.finite()
                && config.phases@[0].at_s.scaled() == 0;
            &&& config.fault() == Some(ConfigError::Endpoint) <==> !hosts
            &&& config.fault() == Some(ConfigError::Distinct) <==> hosts && !differ
            &&& config.fault() == Some(ConfigError::Duration) <==> hosts && differ && !lasting
            &&& config.fault() == Some(ConfigError::Queue) <==> hosts && differ && lasting && !queue
            &&& config.fault() == Some(ConfigError::FirstPhase) <==> hosts && differ && lasting
                && queue && !first
        }),
{
    lemma_usable(config.a);
    lemma_usable(config.b);
    lemma_usable(config.relay_a);
    lemma_usable(config.relay_b);
    lemma_phase_faults(config.phases@, config.duration_s, config.phases@.len());
}

proof fn lemma_phase_faults(phases: Seq<Phase>, duration_s: u64, count: nat)
    ensures
        ({
            let fault = phases_fault(phases, duration_s, count);
            fault is None || fault == Some(ConfigError::PhaseTime) || fault == Some(
                ConfigError::PhaseOrder,
            ) || fault == Some(ConfigError::Impairment)
        }),
    decreases count,
{
    if count > 0 {
        lemma_phase_faults(phases, duration_s, (count - 1) as nat);
    }
}

/// A phase lasts from its beginning to that of the next one, and the last one to the end.
pub proof fn law_phases_follow_one_another(config: Config, elapsed: Double, i: int)
    requires
        config.fault() is None,
        0 <= i < config.phases@.len(),
    ensures
        config.is_current(elapsed, i) <==> {
            &&& config.phases@[i].at_s.scaled() <= elapsed.scaled()
            &&& i + 1 < config.phases@.len() ==> elapsed.scaled()
                < config.phases@[i + 1].at_s.scaled()
        },
{
    let phases = config.phases@;
    law_valid_descriptions(config);
    if i + 1 < phases.len() && elapsed.scaled() < phases[i + 1].at_s.scaled() {
        assert forall|k: int| i < k < phases.len() implies (#[trigger] phases[k]).at_s.scaled()
            > elapsed.scaled() by {
            lemma_later(phases, i + 1, k);
        }
    }
}

proof fn lemma_later(phases: Seq<Phase>, early: int, late: int)
    requires
        0 <= early <= late < phases.len(),
        forall|i: int|
            0 < i < phases.len() ==> phases[i - 1].at_s.scaled() < (
            #[trigger] phases[i]).at_s.scaled(),
    ensures
        phases[early].at_s.scaled() <= phases[late].at_s.scaled(),
    decreases late - early,
{
    if early < late {
        lemma_later(phases, early, late - 1);
        assert(phases[late - 1].at_s.scaled() < phases[late].at_s.scaled());
    }
}

/// The snapshots that are kept of a list of them.
pub open spec fn recorded_all(list: Seq<Snapshot>) -> Seq<Snapshot>
    decreases list.len(),
{
    if list.len() == 0 {
        seq![]
    } else {
        recorded(recorded_all(list.drop_last()), list.last())
    }
}

/// Of all snapshots the last 3600 are kept, in their order.
pub proof fn law_last_snapshots_are_kept(list: Seq<Snapshot>)
    ensures
        list.len() <= 3600 ==> recorded_all(list) == list,
        list.len() > 3600 ==> recorded_all(list) == list.skip(list.len() - 3600),
    decreases list.len(),
{
    if list.len() == 0 {
        assert(recorded_all(list) =~= list);
    } else {
        law_last_snapshots_are_kept(list.drop_last());
        if list.len() <= 3600 {
            assert(recorded_all(list) =~= list);
        } else {
            assert(recorded_all(list) =~= list.skip(list.len() - 3600));
        }
    }
}

} // verus!
