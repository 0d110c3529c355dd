//! One direction of an impaired link: loss, a bounded queue with two priorities, a rate limit,
//! and propagation delay. Times are in nanoseconds.
use crate::double;
use crate::link::{Config, Phase};
use std::collections::VecDeque;
use vstd::prelude::*;

verus! {

/// The most bytes that the arithmetic of a queue is made for, far more than a description of a link
/// may ask for.
pub const QUEUE_LIMIT: usize = 0x3fff_ffff;

/// The payload type of packets with sound.
pub const AUDIO_PAYLOAD: u8 = 111;

/// The payload type of packets with pictures.
pub const VIDEO_PAYLOAD: u8 = 96;

/// The latest time of the link's clock.
pub const CLOCK_LIMIT: u64 = 0x7fff_ffff_ffff_ffff;

/// What a datagram carries.
#[derive(Clone, Copy, Debug, PartialEq, Eq, Structural)]
pub enum Kind {
    Audio,
    Video,
    Control,
}

/// What a datagram carries, from the part of its header that is not encrypted: the two payload
/// types of media packets, and all else is control. Control packets of the media protocol have
/// types of their own.
pub open spec fn kind_of(data: Seq<u8>) -> Kind {
    if data.len() >= 12 && data[0] / 64 == 2 && !(192 <= data[1] <= 223) {
        if data[1] % 128 == AUDIO_PAYLOAD {
            Kind::Audio
        } else if data[1] % 128 == VIDEO_PAYLOAD {
            Kind::Video
        } else {
            Kind::Control
        }
    } else {
        Kind::Control
    }
}

/// What a datagram carries.
pub fn kind(data: &[u8]) -> (r: Kind)
    ensures
        r == kind_of(data@),
{
    if data.len() >= 12 && data[0] / 64 == 2 {
        if 192 <= data[1] && data[1] <= 223 {
            return Kind::Control;
        }
        let payload: u8 = data[1] % 128;
        if payload == AUDIO_PAYLOAD {
            Kind::Audio
        } else if payload == VIDEO_PAYLOAD {
            Kind::Video
        } else {
            Kind::Control
        }
    } else {
        Kind::Control
    }
}

/// What has happened on a direction of a link.
#[derive(Clone, Copy, Debug, PartialEq, Eq, Structural)]
pub struct Counts {
    pub received_packets: u64,
    pub delivered_packets: u64,
    pub received_ip_bytes: u64,
    pub delivered_ip_bytes: u64,
    pub audio_delivered: u64,
    pub video_delivered: u64,
    pub control_delivered: u64,
    pub loss_drops: u64,
    pub outage_drops: u64,
    pub queue_drops: u64,
    pub stale_drops: u64,
    pub unexpected_sources: u64,
    pub peak_queue_bytes: usize,
}

impl Default for Counts {
    fn default() -> (r: Self)
        ensures
            r == Counts::none(),
    {
        Counts {
            received_packets: 0,
            delivered_packets: 0,
            received_ip_bytes: 0,
            delivered_ip_bytes: 0,
            audio_delivered: 0,
            video_delivered: 0,
            control_delivered: 0,
            loss_drops: 0,
            outage_drops: 0,
            queue_drops: 0,
            stale_drops: 0,
            unexpected_sources: 0,
            peak_queue_bytes: 0,
        }
    }
}

impl Counts {
    /// Nothing has happened.
    pub open spec fn none() -> Counts {
        Counts {
            received_packets: 0,
            delivered_packets: 0,
            received_ip_bytes: 0,
            delivered_ip_bytes: 0,
            audio_delivered: 0,
            video_delivered: 0,
            control_delivered: 0,
            loss_drops: 0,
            outage_drops: 0,
            queue_drops: 0,
            stale_drops: 0,
            unexpected_sources: 0,
            peak_queue_bytes: 0,
        }
    }

    /// The datagrams that are accounted for: delivered or dropped for one reason or another.
    pub open spec fn settled(self) -> int {
        self.delivered_packets + self.loss_drops + self.outage_drops + self.queue_drops
            + self.stale_drops
    }

    /// One datagram more has come in.
    pub open spec fn receiving(self, size: int) -> Counts {
        Counts {
            received_packets: (self.received_packets + 1) as u64,
            received_ip_bytes: (self.received_ip_bytes + size) as u64,
            ..self
        }
    }

    /// One datagram more has come from somewhere else than the participant.
    pub open spec fn stray(self) -> Counts {
        Counts { unexpected_sources: (self.unexpected_sources + 1) as u64, ..self }
    }

    /// Datagrams more have been dropped for want of room.
    pub open spec fn crowded(self, count: int) -> Counts {
        Counts { queue_drops: (self.queue_drops + count) as u64, ..self }
    }

    /// Datagrams more have been dropped because they had waited for too long.
    pub open spec fn expiring(self, count: int) -> Counts {
        Counts { stale_drops: (self.stale_drops + count) as u64, ..self }
    }

    /// One datagram more has been delivered.
    pub open spec fn delivering(self, packet: Datagram) -> Counts {
        Counts {
            delivered_packets: (self.delivered_packets + 1) as u64,
            delivered_ip_bytes: (self.delivered_ip_bytes + packet.size()) as u64,
            audio_delivered: if packet.kind == Kind::Audio {
                (self.audio_delivered + 1) as u64
            } else {
                self.audio_delivered
            },
            video_delivered: if packet.kind == Kind::Video {
                (self.video_delivered + 1) as u64
            } else {
                self.video_delivered
            },
            control_delivered: if packet.kind == Kind::Control {
                (self.control_delivered + 1) as u64
            } else {
                self.control_delivered
            },
            ..self
        }
    }

    /// Datagrams more have been delivered.
    pub open spec fn delivering_all(self, list: Seq<Datagram>) -> Counts
        decreases list.len(),
    {
        if list.len() == 0 {
            self
        } else {
            self.delivering_all(list.drop_last()).delivering(list.last())
        }
    }
}

/// A datagram on the link: what it holds, when it came and when it is due at the other end.
pub struct Packet {
    pub data: Vec<u8>,
    pub kind: Kind,
    pub arrived: u64,
    pub due: u64,
}

/// The contents of a datagram on the link.
#[verifier::ext_equal]
pub struct Datagram {
    pub data: Seq<u8>,
    pub kind: Kind,
    pub arrived: u64,
    pub due: u64,
}

impl Datagram {
    /// The length with the headers of IPv4 and UDP.
    pub open spec fn size(self) -> int {
        self.data.len() as int + 28
    }
}

impl View for Packet {
    type V = Datagram;

    open spec fn view(&self) -> Datagram {
        Datagram { data: self.data@, kind: self.kind, arrived: self.arrived, due: self.due }
    }
}

impl Packet {
    /// The length with the headers of IPv4 and UDP.
    pub fn size(&self) -> (r: usize)
        requires
            self.data@.len() + 28 <= usize::MAX,
        ensures
            r == self@.size(),
    {
        self.data.len() + 28
    }
}

/// The contents of a list of datagrams.
pub open spec fn datagrams(list: Seq<Packet>) -> Seq<Datagram> {
    list.map_values(|packet: Packet| packet@)
}

/// The length of a list of datagrams.
pub open spec fn sizes(list: Seq<Datagram>) -> int
    decreases list.len(),
{
    if list.len() == 0 {
        0
    } else {
        sizes(list.drop_last()) + list.last().size()
    }
}

/// The next state of the generator.
pub open spec fn next_random(state: u64) -> u64 {
    let first = state ^ (state << 13);
    let second = first ^ (first >> 7);
    second ^ (second << 17)
}

/// The draw that a state of the generator stands for, out of the numbers of 53 bits.
pub open spec fn draw_of(state: u64) -> u64 {
    state >> 11
}

/// A generator that is not at zero never gets there.
pub(crate) proof fn lemma_random(state: u64)
    ensures
        state != 0 ==> next_random(state) != 0,
        draw_of(state) < 0x20_0000_0000_0000,
{
    let first = state ^ (state << 13);
    let second = first ^ (first >> 7);
    let third = second ^ (second << 17);
    assert(first == 0 ==> state == 0) by (bit_vector)
        requires
            first == state ^ (state << 13),
    ;
    assert(second == 0 ==> first == 0) by (bit_vector)
        requires
            second == first ^ (first >> 7),
    ;
    assert(third == 0 ==> second == 0) by (bit_vector)
        requires
            third == second ^ (second << 17),
    ;
    assert((state >> 11) < 0x20_0000_0000_0000) by (bit_vector);
}

/// The part of the jitter that a draw decides on, from all of it less to all of it more, in units of
/// which one is a 2^53rd part of a millisecond. The product is rounded to 53 binary digits.
pub open spec fn jitter_part(jitter_ms: u32, draw: u64) -> int {
    let half = 2 * draw - 0x20_0000_0000_0000;
    if half < 0 {
        -(double::rounded((-half * jitter_ms) as nat) as int)
    } else {
        double::rounded((half * jitter_ms) as nat) as int
    }
}

/// The propagation delay of a datagram: the link's delay and a part of the jitter, as a sum of 53
/// binary digits, divided to seconds and then rounded to nanoseconds. No delay is negative.
pub open spec fn propagation(delay_ms: u32, jitter_ms: u32, draw: u64) -> int {
    let sum = delay_ms * 0x20_0000_0000_0000 + jitter_part(jitter_ms, draw);
    if sum <= 0 {
        0
    } else {
        double::nanoseconds(double::rounded(sum as nat), 1000 * 0x20_0000_0000_0000) as int
    }
}

/// The time that a datagram takes on a link of the given rate, as seconds of 53 binary digits that
/// are rounded to nanoseconds; none where the rate is not limited.
pub open spec fn serialization(size: int, kbps: u32) -> int {
    if kbps == 0 {
        0
    } else {
        double::nanoseconds((8 * size) as nat, (1000 * kbps) as nat) as int
    }
}

/// What a direction of a link holds and how far it has come.
#[verifier::ext_equal]
pub struct LinkModel {
    pub high: Seq<Datagram>,
    pub low: Seq<Datagram>,
    pub flying: Seq<Datagram>,
    pub bytes: int,
    pub free: u64,
    pub rng: u64,
    pub counts: Counts,
}

/// How much time has passed, none where a clock ran backwards.
pub open spec fn waited(now: u64, since: u64) -> int {
    if now < since {
        0
    } else {
        now - since
    }
}

/// Whether a datagram has waited for longer than it may.
pub open spec fn expired(packet: Datagram, now: u64, queue_ms: u64) -> bool {
    waited(now, packet.arrived) > queue_ms * 1_000_000
}

/// A queue without the datagrams at its front that have waited for too long.
pub open spec fn fresh(list: Seq<Datagram>, now: u64, queue_ms: u64) -> Seq<Datagram>
    decreases list.len(),
{
    if list.len() > 0 && expired(list[0], now, queue_ms) {
        fresh(list.drop_first(), now, queue_ms)
    } else {
        list
    }
}

/// Whether a datagram has reached the other end.
pub open spec fn due_by(now: u64) -> spec_fn(Datagram) -> bool {
    |packet: Datagram| packet.due <= now
}

/// Whether a datagram is still on its way.
pub open spec fn due_after(now: u64) -> spec_fn(Datagram) -> bool {
    |packet: Datagram| packet.due > now
}

/// The most bytes that may be queued once a datagram of the given kind is among them.
pub open spec fn room_for(kind: Kind, queue_bytes: usize) -> int {
    if kind == Kind::Video {
        queue_bytes * 4 / 5
    } else {
        queue_bytes as int
    }
}

impl LinkModel {
    /// An empty link whose losses follow from the seed.
    pub open spec fn fresh(seed: u64, now: u64) -> LinkModel {
        LinkModel {
            high: seq![],
            low: seq![],
            flying: seq![],
            bytes: 0,
            free: now,
            rng: if seed == 0 {
                1
            } else {
                seed
            },
            counts: Counts::none(),
        }
    }

    /// How many datagrams the link holds.
    pub open spec fn stored(self) -> int {
        self.high.len() as int + self.low.len() + self.flying.len()
    }

    /// Whether the bytes of a link are those of the datagrams that it holds, the ones on the line
    /// included.
    pub open spec fn measured(self) -> bool {
        self.bytes == sizes(self.high) + sizes(self.low) + sizes(self.flying)
    }

    /// Whether the accounts of a link are balanced: every datagram that came in was delivered, was
    /// dropped for a reason that is counted, or is here, and every one that was delivered is counted
    /// under its kind.
    pub open spec fn balanced(self) -> bool {
        &&& self.measured()
        &&& self.counts.received_packets == self.counts.settled() + self.stored()
        &&& self.counts.delivered_packets == self.counts.audio_delivered
            + self.counts.video_delivered + self.counts.control_delivered
        &&& self.counts.received_ip_bytes >= self.counts.delivered_ip_bytes + self.bytes
    }

    /// What holds of a direction of a link at all times: its bytes are those of the datagrams
    /// that it holds; every datagram that came in was delivered, was dropped, or is here; and
    /// pictures wait in the lower queue, everything else in the upper one.
    pub open spec fn wf(self) -> bool {
        &&& self.rng != 0
        &&& self.balanced()
        &&& self.bytes <= QUEUE_LIMIT
        &&& self.bytes <= self.counts.peak_queue_bytes
        &&& forall|i: int|
            0 <= i < self.high.len() ==> (#[trigger] self.high[i]).kind != Kind::Video
                && queued_well(self.high[i])
        &&& forall|i: int|
            0 <= i < self.low.len() ==> (#[trigger] self.low[i]).kind == Kind::Video && queued_well(
                self.low[i],
            )
    }

    /// The link without the newest pictures that make room for a datagram.
    pub open spec fn evicting(self, size: int, limit: int) -> LinkModel
        decreases self.low.len(),
    {
        if self.bytes + size > limit && self.low.len() > 0 {
            LinkModel {
                low: self.low.drop_last(),
                bytes: self.bytes - self.low.last().size(),
                counts: self.counts.crowded(1),
                ..self
            }.evicting(size, limit)
        } else {
            self
        }
    }

    /// The link with one datagram more in its queue.
    pub open spec fn storing(self, packet: Datagram) -> LinkModel {
        let bytes = self.bytes + packet.size();
        LinkModel {
            high: if packet.kind == Kind::Video {
                self.high
            } else {
                self.high.push(packet)
            },
            low: if packet.kind == Kind::Video {
                self.low.push(packet)
            } else {
                self.low
            },
            bytes,
            counts: Counts {
                peak_queue_bytes: if self.counts.peak_queue_bytes < bytes {
                    bytes as usize
                } else {
                    self.counts.peak_queue_bytes
                },
                ..self.counts
            },
            ..self
        }
    }

    /// The link after a datagram came in that was not lost: pictures are evicted for anything
    /// else, and what still finds no room is dropped.
    pub open spec fn admitting(
        self,
        data: Seq<u8>,
        phase: Phase,
        queue_bytes: usize,
        now: u64,
    ) -> LinkModel {
        let kind = kind_of(data);
        let size = data.len() as int + 28;
        let cleared = if kind == Kind::Video {
            self
        } else {
            self.evicting(size, queue_bytes as int)
        };
        if cleared.bytes + size > room_for(kind, queue_bytes) {
            LinkModel { counts: cleared.counts.crowded(1), ..cleared }
        } else {
            let rng = next_random(self.rng);
            let delay = propagation(phase.delay_ms, phase.jitter_ms, draw_of(rng));
            LinkModel { rng, ..cleared }.storing(
                Datagram { data, kind, arrived: now, due: (now + delay) as u64 },
            )
        }
    }

    /// The link after a datagram came in.
    pub open spec fn enqueued(
        self,
        data: Seq<u8>,
        phase: Phase,
        queue_bytes: usize,
        now: u64,
    ) -> LinkModel {
        let counts = self.counts.receiving(data.len() as int + 28);
        let rng = next_random(self.rng);
        if phase.outage {
            LinkModel {
                counts: Counts { outage_drops: (counts.outage_drops + 1) as u64, ..counts },
                ..self
            }
        } else if double::draws_below(draw_of(rng), phase.loss_percent) {
            LinkModel {
                rng,
                counts: Counts { loss_drops: (counts.loss_drops + 1) as u64, ..counts },
                ..self
            }
        } else {
            LinkModel { rng, counts, ..self }.admitting(data, phase, queue_bytes, now)
        }
    }

    /// The link after all that it held was dropped.
    pub open spec fn flushed(self, now: u64) -> LinkModel {
        LinkModel {
            high: seq![],
            low: seq![],
            flying: seq![],
            bytes: 0,
            free: now,
            rng: self.rng,
            counts: Counts {
                outage_drops: (self.counts.outage_drops + self.stored()) as u64,
                ..self.counts
            },
        }
    }

    /// The link without the datagrams that have waited for too long.
    pub open spec fn freshened(self, now: u64, queue_ms: u64) -> LinkModel {
        let high = fresh(self.high, now, queue_ms);
        let low = fresh(self.low, now, queue_ms);
        LinkModel {
            high,
            low,
            bytes: sizes(high) + sizes(low) + sizes(self.flying),
            counts: self.counts.expiring(
                self.high.len() - high.len() + self.low.len() - low.len(),
            ),
            ..self
        }
    }

    /// The link after the next datagram left its queue: the upper queue goes first. The line is
    /// busy until the datagram is through, and then the datagram still has its way to go.
    pub open spec fn launching(self, kbps: u32, now: u64) -> LinkModel {
        let packet = if self.high.len() > 0 {
            self.high[0]
        } else {
            self.low[0]
        };
        let free = now + serialization(packet.size(), kbps);
        LinkModel {
            high: if self.high.len() > 0 {
                self.high.drop_first()
            } else {
                self.high
            },
            low: if self.high.len() > 0 {
                self.low
            } else {
                self.low.drop_first()
            },
            flying: self.flying.push(
                Datagram {
                    due: (free + waited(packet.due, packet.arrived)) as u64,
                    ..packet
                },
            ),
            free: free as u64,
            ..self
        }
    }

    /// The link after all datagrams have left their queues that can: one at a time where the rate
    /// is limited, else all of them.
    pub open spec fn transmitted(self, kbps: u32, now: u64) -> LinkModel
        decreases self.high.len() + self.low.len(),
    {
        if self.free > now || self.high.len() + self.low.len() == 0 {
            self
        } else if kbps > 0 {
            self.launching(kbps, now)
        } else {
            self.launching(kbps, now).transmitted(kbps, now)
        }
    }

    /// The datagrams that have reached the other end, in the order in which they left.
    pub open spec fn arrivals(self, now: u64) -> Seq<Datagram> {
        self.flying.filter(due_by(now))
    }

    /// The link without the datagrams that have reached the other end.
    pub open spec fn landed(self, now: u64) -> LinkModel {
        LinkModel {
            flying: self.flying.filter(due_after(now)),
            bytes: self.bytes - sizes(self.arrivals(now)),
            counts: self.counts.delivering_all(self.arrivals(now)),
            ..self
        }
    }

    /// The link after a regular look at it, before arrivals are handed out.
    pub open spec fn advanced(self, phase: Phase, queue_ms: u64, now: u64) -> LinkModel {
        self.freshened(now, queue_ms).transmitted(phase.kbps, now)
    }

    /// The link after a regular look at it.
    pub open spec fn pumped(self, phase: Phase, queue_ms: u64, now: u64) -> LinkModel {
        if phase.outage {
            self.flushed(now)
        } else {
            self.advanced(phase, queue_ms, now).landed(now)
        }
    }

    /// The datagrams that a regular look at the link hands out.
    pub open spec fn delivered(self, phase: Phase, queue_ms: u64, now: u64) -> Seq<Datagram> {
        if phase.outage {
            seq![]
        } else {
            self.advanced(phase, queue_ms, now).arrivals(now)
        }
    }
}

/// The times of a datagram in a queue are those that the link's clock can reach.
pub open spec fn queued_well(packet: Datagram) -> bool {
    packet.arrived <= CLOCK_LIMIT && packet.arrived <= packet.due && packet.due - packet.arrived
        <= 0x1000_0000_0000_0000
}

/// Lists of datagrams have no negative length, and none of their datagrams is longer than all.
pub(crate) proof fn lemma_sizes(list: Seq<Datagram>)
    ensures
        sizes(list) >= 28 * list.len(),
        forall|i: int| 0 <= i < list.len() ==> (#[trigger] list[i]).size() <= sizes(list),
    decreases list.len(),
{
    if list.len() > 0 {
        lemma_sizes(list.drop_last());
        assert forall|i: int| 0 <= i < list.len() implies (#[trigger] list[i]).size() <= sizes(
            list,
        ) by {
            if i < list.len() - 1 {
                assert(list.drop_last()[i] == list[i]);
            }
        }
    }
}

pub(crate) proof fn lemma_sizes_push(list: Seq<Datagram>, packet: Datagram)
    ensures
        sizes(list.push(packet)) == sizes(list) + packet.size(),
{
    assert(list.push(packet).drop_last() =~= list);
}

pub(crate) proof fn lemma_sizes_first(list: Seq<Datagram>)
    requires
        list.len() > 0,
    ensures
        sizes(list) == list[0].size() + sizes(list.drop_first()),
    decreases list.len(),
{
    if list.len() == 1 {
        assert(list.drop_first() =~= seq![]);
        assert(list.drop_last() =~= seq![]);
    } else {
        lemma_sizes_first(list.drop_last());
        assert(list.drop_last().drop_first() =~= list.drop_first().drop_last());
    }
}

/// Pushing a datagram before or after the contents are taken makes no difference.
proof fn lemma_datagrams_push(list: Seq<Packet>, packet: Packet)
    ensures
        datagrams(list.push(packet)) == datagrams(list).push(packet@),
{
    assert(datagrams(list.push(packet)) =~= datagrams(list).push(packet@));
}

/// One direction of a link.
pub struct Direction {
    pub high: VecDeque<Packet>,
    pub low: VecDeque<Packet>,
    pub flying: Vec<Packet>,
    pub bytes: usize,
    pub free: u64,
    pub rng: u64,
    pub counts: Counts,
}

impl View for Direction {
    type V = LinkModel;

    open spec fn view(&self) -> LinkModel {
        LinkModel {
            high: datagrams(self.high@),
            low: datagrams(self.low@),
            flying: datagrams(self.flying@),
            bytes: self.bytes as int,
            free: self.free,
            rng: self.rng,
            counts: self.counts,
        }
    }
}

/// Evicting pictures keeps what holds of a link, and takes no more than is needed.
pub(crate) proof fn lemma_evicting(link: LinkModel, size: int, limit: int)
    requires
        link.measured(),
    ensures
        ({
            let after = link.evicting(size, limit);
            &&& after.measured()
            &&& after.bytes <= link.bytes
            &&& after.high == link.high
            &&& after.flying == link.flying
            &&& after.free == link.free
            &&& after.rng == link.rng
            &&& after.counts.peak_queue_bytes == link.counts.peak_queue_bytes
            &&& link.counts.received_packets == link.counts.settled() + link.stored() + 1 ==> {
                &&& after.counts.received_packets == after.counts.settled() + after.stored() + 1
                &&& after.counts == link.counts.crowded(link.low.len() - after.low.len())
            }
            &&& after.low == link.low.take(after.low.len() as int)
            &&& after.low.len() <= link.low.len()
            &&& after.low.len() < link.low.len() ==> after.bytes + link.low[after.low.len() as int].size()
                + size > limit
            &&& after.bytes + size > limit ==> after.low.len() == 0
        }),
    decreases link.low.len(),
{
    if link.bytes + size > limit && link.low.len() > 0 {
        let next = LinkModel {
            low: link.low.drop_last(),
            bytes: link.bytes - link.low.last().size(),
            counts: link.counts.crowded(1),
            ..link
        };
        if link.counts.received_packets == link.counts.settled() + link.stored() + 1 {
            assert(next.counts.settled() == link.counts.settled() + 1);
        }
        lemma_evicting(next, size, limit);
        let after = next.evicting(size, limit);
        assert(after.low =~= link.low.take(after.low.len() as int));
    } else {
        assert(link.low.take(link.low.len() as int) =~= link.low);
    }
}

/// How large the parts of a delay are.
pub(crate) proof fn lemma_jitter_part(jitter_ms: u32, draw: u64)
    requires
        draw < 0x20_0000_0000_0000,
    ensures
        ({
            let half = 2 * draw - 0x20_0000_0000_0000;
            let size = if half < 0 {
                -half * jitter_ms
            } else {
                half * jitter_ms
            };
            0 <= size <= 0x20_0000_0000_0000 * jitter_ms
        }),
        -(0x20_0000_0000_0001 * jitter_ms) <= jitter_part(jitter_ms, draw) <= 0x20_0000_0000_0001
            * jitter_ms,
{
    let half = 2 * draw - 0x20_0000_0000_0000;
    let size = if half < 0 {
        -half * jitter_ms
    } else {
        half * jitter_ms
    };
    assert(0 <= size <= 0x20_0000_0000_0000 * jitter_ms) by (nonlinear_arith)
        requires
            size == (if half < 0 {
                -half * jitter_ms
            } else {
                half * jitter_ms
            }),
            -0x20_0000_0000_0000 <= half <= 0x20_0000_0000_0000,
            0 <= jitter_ms,
    ;
    double::lemma_rounded(size as nat);
}

/// No delay is longer than a datagram's times allow.
proof fn lemma_propagation(delay_ms: u32, jitter_ms: u32, draw: u64)
    requires
        draw < 0x20_0000_0000_0000,
    ensures
        0 <= propagation(delay_ms, jitter_ms, draw) <= 0x1000_0000_0000_0000,
{
    lemma_jitter_part(jitter_ms, draw);
    let sum = delay_ms * 0x20_0000_0000_0000 + jitter_part(jitter_ms, draw);
    if sum > 0 {
        double::lemma_rounded(sum as nat);
        double::lemma_nanoseconds(double::rounded(sum as nat), 1000 * 0x20_0000_0000_0000);
    }
}

/// The propagation delay of a datagram.
fn delay(delay_ms: u32, jitter_ms: u32, draw: u64) -> (r: u64)
    requires
        draw < 0x20_0000_0000_0000,
    ensures
        r == propagation(delay_ms, jitter_ms, draw),
{
    proof {
        lemma_propagation(delay_ms, jitter_ms, draw);
        lemma_jitter_part(jitter_ms, draw);
    }
    let base: u128 = delay_ms as u128 * 0x20_0000_0000_0000;
    let sum: u128 = if 2 * draw < 0x20_0000_0000_0000 {
        let less: u128 = double::round_whole(
            (0x20_0000_0000_0000 - 2 * draw) as u128 * jitter_ms as u128,
        );
        if base <= less {
            return 0;
        }
        base - less
    } else {
        base + double::round_whole((2 * draw - 0x20_0000_0000_0000) as u128 * jitter_ms as u128)
    };
    if sum == 0 {
        return 0;
    }
    proof {
        double::lemma_rounded(sum as nat);
    }
    double::to_nanoseconds(double::round_whole(sum), 1000 * 0x20_0000_0000_0000) as u64
}

/// How long a datagram of the given length can take.
pub(crate) proof fn lemma_serialization(size: int, kbps: u32)
    requires
        28 <= size <= QUEUE_LIMIT,
    ensures
        0 <= serialization(size, kbps) <= 16_000_000 * QUEUE_LIMIT,
{
    if kbps > 0 {
        let num = (8 * size) as nat;
        let den = (1000 * kbps) as nat;
        double::lemma_nanoseconds(num, den);
        let time = double::nanoseconds(num, den) as int;
        assert(time <= 16_000_000 * QUEUE_LIMIT) by (nonlinear_arith)
            requires
                0x20_0000_0000_0000 * (time * den - 1_000_000_000 * num) <= 1_000_000_000 * num
                    + 0x10_0000_0000_0000 * den,
                224 <= num <= 8 * QUEUE_LIMIT,
                den >= 1000,
                QUEUE_LIMIT == 0x3fff_ffff,
        ;
    }
}

impl Direction {
    /// An empty link whose losses follow from the seed.
    pub fn new(seed: u64, now: u64) -> (r: Self)
        ensures
            r@.wf(),
            r@ == LinkModel::fresh(seed, now),
    {
        let r = Direction {
            high: VecDeque::new(),
            low: VecDeque::new(),
            flying: Vec::new(),
            bytes: 0,
            free: now,
            rng: if seed == 0 {
                1
            } else {
                seed
            },
            counts: Counts::default(),
        };
        assert(r@.high =~= seq![]);
        assert(r@.low =~= seq![]);
        assert(r@.flying =~= seq![]);
        r
    }

    /// Moves the generator on and returns its draw.
    fn random(&mut self) -> (r: u64)
        ensures
            *final(self) == (Direction { rng: next_random(old(self).rng), ..*old(self) }),
            r == draw_of(next_random(old(self).rng)),
            r < 0x20_0000_0000_0000,
            old(self).rng != 0 ==> final(self).rng != 0,
    {
        let first: u64 = self.rng ^ (self.rng << 13);
        let second: u64 = first ^ (first >> 7);
        let third: u64 = second ^ (second << 17);
        proof {
            lemma_random(self.rng);
            lemma_random(third);
        }
        self.rng = third;
        third >> 11
    }

    /// Evicts pictures until a datagram finds room or there are none left.
    fn evict(&mut self, size: usize, limit: usize)
        requires
            old(self).rng != 0,
            old(self)@.bytes == sizes(old(self)@.high) + sizes(old(self)@.low) + sizes(
                old(self)@.flying,
            ),
            old(self)@.counts.received_packets == old(self)@.counts.settled() + old(self)@.stored()
                + 1,
            forall|i: int|
                0 <= i < old(self)@.low.len() ==> (#[trigger] old(self)@.low[i]).kind == Kind::Video
                    && queued_well(old(self)@.low[i]),
            old(self).bytes + size <= usize::MAX,
        ensures
            final(self)@ == old(self)@.evicting(size as int, limit as int),
    {
        let ghost start = self@;
        while self.bytes + size > limit && self.low.len() > 0
            invariant
                self.rng != 0,
                self@.bytes == sizes(self@.high) + sizes(self@.low) + sizes(self@.flying),
                self@.counts.received_packets == self@.counts.settled() + self@.stored() + 1,
                forall|i: int|
                    0 <= i < self@.low.len() ==> (#[trigger] self@.low[i]).kind == Kind::Video
                        && queued_well(self@.low[i]),
                self.bytes + size <= usize::MAX,
                self@.evicting(size as int, limit as int) == start.evicting(
                    size as int,
                    limit as int,
                ),
            decreases self.low@.len(),
        {
            let ghost before = self@;
            proof {
                lemma_sizes(before.high);
                lemma_sizes(before.low);
                lemma_sizes(before.flying);
            }
            if let Some(packet) = self.low.pop_back() {
                assert(packet@ == before.low.last());
                self.bytes = self.bytes - packet.size();
                self.counts.queue_drops = self.counts.queue_drops + 1;
            }
            proof {
                let next = LinkModel {
                    low: before.low.drop_last(),
                    bytes: before.bytes - before.low.last().size(),
                    counts: before.counts.crowded(1),
                    ..before
                };
                assert(self@.low =~= next.low);
                assert(self@ =~= next);
                assert forall|i: int| 0 <= i < self@.low.len() implies (
                #[trigger] self@.low[i]).kind == Kind::Video && queued_well(self@.low[i]) by {
                    assert(self@.low[i] == before.low[i]);
                }
            }
        }
    }
}

/// A datagram that finds room keeps what holds of a link.
proof fn lemma_storing(link: LinkModel, packet: Datagram)
    requires
        link.rng != 0,
        link.bytes == sizes(link.high) + sizes(link.low) + sizes(link.flying),
        link.bytes + packet.size() <= QUEUE_LIMIT,
        link.counts.received_packets == link.counts.settled() + link.stored() + 1,
        link.counts.delivered_packets == link.counts.audio_delivered + link.counts.video_delivered
            + link.counts.control_delivered,
        link.counts.received_ip_bytes >= link.counts.delivered_ip_bytes + link.bytes
            + packet.size(),
        forall|i: int|
            0 <= i < link.high.len() ==> (#[trigger] link.high[i]).kind != Kind::Video
                && queued_well(link.high[i]),
        forall|i: int|
            0 <= i < link.low.len() ==> (#[trigger] link.low[i]).kind == Kind::Video && queued_well(
                link.low[i],
            ),
        queued_well(packet),
    ensures
        link.storing(packet).wf(),
{
    lemma_sizes(link.high);
    lemma_sizes(link.low);
    lemma_sizes(link.flying);
    lemma_sizes_push(link.high, packet);
    lemma_sizes_push(link.low, packet);
    let after = link.storing(packet);
    assert(after.stored() == link.stored() + 1);
}

/// A datagram that comes in keeps what holds of a link, and the queue within its bounds.
proof fn lemma_enqueued(
    link: LinkModel,
    data: Seq<u8>,
    phase: Phase,
    queue_bytes: usize,
    now: u64,
)
    requires
        link.wf(),
        now <= CLOCK_LIMIT,
        queue_bytes <= QUEUE_LIMIT,
        link.counts.received_packets < u64::MAX,
        link.counts.received_ip_bytes + data.len() + 28 <= u64::MAX,
    ensures
        link.enqueued(data, phase, queue_bytes, now).wf(),
        link.bytes <= queue_bytes ==> link.enqueued(data, phase, queue_bytes, now).bytes
            <= queue_bytes,
        link.enqueued(data, phase, queue_bytes, now).flying == link.flying,
{
    let size = data.len() as int + 28;
    let counts = link.counts.receiving(size);
    let rng = next_random(link.rng);
    lemma_random(link.rng);
    lemma_random(rng);
    if !phase.outage && !double::draws_below(draw_of(rng), phase.loss_percent) {
        let drawn = LinkModel { rng, counts, ..link };
        lemma_evicting(drawn, size, queue_bytes as int);
        let kind = kind_of(data);
        let cleared = if kind == Kind::Video {
            drawn
        } else {
            drawn.evicting(size, queue_bytes as int)
        };
        assert forall|i: int| 0 <= i < cleared.low.len() implies (#[trigger] cleared.low[i]).kind
            == Kind::Video && queued_well(cleared.low[i]) by {
            assert(cleared.low[i] == link.low[i]);
        }
        lemma_sizes(cleared.high);
        lemma_sizes(cleared.low);
        lemma_sizes(cleared.flying);
        if cleared.bytes + size <= room_for(kind, queue_bytes) {
            let last = next_random(rng);
            lemma_random(last);
            lemma_propagation(phase.delay_ms, phase.jitter_ms, draw_of(last));
            let delay = propagation(phase.delay_ms, phase.jitter_ms, draw_of(last));
            let packet = Datagram { data, kind, arrived: now, due: (now + delay) as u64 };
            lemma_storing(LinkModel { rng: last, ..cleared }, packet);
        }
    }
}

impl Direction {
    /// Takes a datagram in: it can be lost, find no room, or be queued for the other end.
    pub fn enqueue(&mut self, data: &[u8], phase: &Phase, cfg: &Config, now: u64)
        requires
            old(self)@.wf(),
            now <= CLOCK_LIMIT,
            cfg.queue_bytes <= QUEUE_LIMIT,
            data@.len() + 28 + QUEUE_LIMIT <= usize::MAX,
            old(self).counts.received_packets < u64::MAX,
            old(self).counts.received_ip_bytes + data@.len() + 28 <= u64::MAX,
        ensures
            final(self)@ == old(self)@.enqueued(data@, *phase, cfg.queue_bytes, now),
            final(self)@.wf(),
    {
        let ghost start = self@;
        proof {
            lemma_enqueued(start, data@, *phase, cfg.queue_bytes, now);
            lemma_sizes(start.high);
            lemma_sizes(start.low);
            lemma_sizes(start.flying);
        }
        let size: usize = data.len() + 28;
        self.counts.received_packets = self.counts.received_packets + 1;
        self.counts.received_ip_bytes = self.counts.received_ip_bytes + size as u64;
        if phase.outage {
            self.counts.outage_drops = self.counts.outage_drops + 1;
            return;
        }
        let draw: u64 = self.random();
        if double::is_below(draw, phase.loss_percent) {
            self.counts.loss_drops = self.counts.loss_drops + 1;
            return;
        }
        let ghost drawn = self@;
        assert(drawn =~= LinkModel {
            rng: next_random(start.rng),
            counts: start.counts.receiving(data@.len() as int + 28),
            ..start
        });
        proof {
            lemma_random(start.rng);
            lemma_evicting(drawn, size as int, cfg.queue_bytes as int);
        }
        let kind = kind(data);
        if kind != Kind::Video {
            self.evict(size, cfg.queue_bytes);
        }
        let ghost cleared = self@;
        proof {
            lemma_sizes(cleared.high);
            lemma_sizes(cleared.low);
            lemma_sizes(cleared.flying);
        }
        let limit: usize = if kind == Kind::Video {
            cfg.queue_bytes * 4 / 5
        } else {
            cfg.queue_bytes
        };
        if self.bytes + size > limit {
            self.counts.queue_drops = self.counts.queue_drops + 1;
            return;
        }
        let draw: u64 = self.random();
        proof {
            lemma_propagation(phase.delay_ms, phase.jitter_ms, draw);
        }
        let due: u64 = now + delay(phase.delay_ms, phase.jitter_ms, draw);
        let mut copy: Vec<u8> = Vec::new();
        copy.extend_from_slice(data);
        assert(copy@ =~= data@);
        let packet = Packet { data: copy, kind, arrived: now, due };
        let ghost stored = packet@;
        if kind == Kind::Video {
            proof {
                lemma_datagrams_push(self.low@, packet);
            }
            self.low.push_back(packet);
        } else {
            proof {
                lemma_datagrams_push(self.high@, packet);
            }
            self.high.push_back(packet);
        }
        self.bytes = self.bytes + size;
        if self.counts.peak_queue_bytes < self.bytes {
            self.counts.peak_queue_bytes = self.bytes;
        }
        assert(self@ =~= LinkModel { rng: next_random(cleared.rng), ..cleared }.storing(stored));
    }

    /// Drops all that the link holds.
    pub fn flush_outage(&mut self, now: u64)
        requires
            old(self)@.wf(),
        ensures
            final(self)@ == old(self)@.flushed(now),
            final(self)@.wf(),
    {
        proof {
            lemma_sizes(self@.high);
            lemma_sizes(self@.low);
            lemma_sizes(self@.flying);
        }
        let stored: u64 = self.high.len() as u64 + self.low.len() as u64 + self.flying.len() as u64;
        self.counts.outage_drops = self.counts.outage_drops + stored;
        self.high.clear();
        self.low.clear();
        self.flying = Vec::new();
        self.bytes = 0;
        self.free = now;
        assert(self@ =~= old(self)@.flushed(now));
    }
}

/// What is left of a queue is its end.
pub(crate) proof fn lemma_fresh(list: Seq<Datagram>, now: u64, queue_ms: u64)
    ensures
        ({
            let rest = fresh(list, now, queue_ms);
            &&& rest.len() <= list.len()
            &&& rest == list.skip(list.len() - rest.len())
            &&& sizes(rest) <= sizes(list)
            &&& rest.len() > 0 ==> !expired(rest[0], now, queue_ms)
        }),
    decreases list.len(),
{
    if list.len() > 0 && expired(list[0], now, queue_ms) {
        lemma_fresh(list.drop_first(), now, queue_ms);
        lemma_sizes_first(list);
        let rest = fresh(list, now, queue_ms);
        assert(rest =~= list.skip(list.len() - rest.len()));
    } else {
        assert(list.skip(0) =~= list);
    }
}

/// Drops the datagrams at the front of a queue that have waited for too long.
fn drop_stale(
    list: &mut VecDeque<Packet>,
    bytes: &mut usize,
    dropped: &mut u64,
    now: u64,
    queue_ms: u64,
)
    requires
        sizes(datagrams(old(list)@)) <= *old(bytes),
        *old(dropped) + old(list)@.len() <= u64::MAX,
    ensures
        datagrams(final(list)@) == fresh(datagrams(old(list)@), now, queue_ms),
        *final(bytes) == *old(bytes) - sizes(datagrams(old(list)@)) + sizes(
            datagrams(final(list)@),
        ),
        *final(dropped) == *old(dropped) + old(list)@.len() - final(list)@.len(),
{
    while list.len() > 0
        invariant_except_break
            fresh(datagrams(list@), now, queue_ms) == fresh(
                datagrams(old(list)@),
                now,
                queue_ms,
            ),
        invariant
            list@.len() <= old(list)@.len(),
            sizes(datagrams(list@)) <= *bytes,
            *bytes == *old(bytes) - sizes(datagrams(old(list)@)) + sizes(datagrams(list@)),
            *dropped == *old(dropped) + old(list)@.len() - list@.len(),
            *old(dropped) + old(list)@.len() <= u64::MAX,
        ensures
            datagrams(list@) == fresh(datagrams(old(list)@), now, queue_ms),
        decreases list@.len(),
    {
        let ghost before = datagrams(list@);
        proof {
            lemma_sizes(before);
            lemma_sizes_first(before);
            assert(list@[0]@ == before[0]);
        }
        let arrived: u64 = list[0].arrived;
        let age: u64 = if now < arrived {
            0
        } else {
            now - arrived
        };
        if age as u128 <= queue_ms as u128 * 1_000_000 {
            break ;
        }
        if let Some(packet) = list.pop_front() {
            assert(packet@ == before[0]);
            proof {
                lemma_sizes(before.drop_first());
            }
            *bytes = *bytes - packet.size();
            *dropped = *dropped + 1;
        }
        assert(datagrams(list@) =~= before.drop_first());
    }
}

/// Leaving a queue for the line keeps what holds of a link.
proof fn lemma_launching(link: LinkModel, kbps: u32, now: u64)
    requires
        link.wf(),
        now <= CLOCK_LIMIT,
        link.high.len() + link.low.len() > 0,
    ensures
        link.launching(kbps, now).wf(),
        ({
            let packet = if link.high.len() > 0 {
                link.high[0]
            } else {
                link.low[0]
            };
            &&& queued_well(packet)
            &&& 28 <= packet.size() <= QUEUE_LIMIT
            &&& 0 <= serialization(packet.size(), kbps) <= 16_000_000 * QUEUE_LIMIT
        }),
{
    let packet = if link.high.len() > 0 {
        link.high[0]
    } else {
        link.low[0]
    };
    lemma_sizes(link.high);
    lemma_sizes(link.low);
    lemma_sizes(link.flying);
    if link.high.len() > 0 {
        lemma_sizes_first(link.high);
    } else {
        lemma_sizes_first(link.low);
    }
    let after = link.launching(kbps, now);
    lemma_sizes_push(link.flying, after.flying.last());
    assert forall|i: int| 0 <= i < after.high.len() implies (#[trigger] after.high[i]).kind
        != Kind::Video && queued_well(after.high[i]) by {
        if link.high.len() > 0 {
            assert(after.high[i] == link.high[i + 1]);
        }
    }
    assert forall|i: int| 0 <= i < after.low.len() implies (#[trigger] after.low[i]).kind
        == Kind::Video && queued_well(after.low[i]) by {
        if link.high.len() == 0 {
            assert(after.low[i] == link.low[i + 1]);
        } else {
            assert(after.low[i] == link.low[i]);
        }
    }
    lemma_serialization(packet.size(), kbps);
}

/// Leaving their queues, as many as can, keeps what holds of a link.
proof fn lemma_transmitted(link: LinkModel, kbps: u32, now: u64)
    requires
        link.wf(),
        now <= CLOCK_LIMIT,
    ensures
        link.transmitted(kbps, now).wf(),
    decreases link.high.len() + link.low.len(),
{
    if link.free <= now && link.high.len() + link.low.len() > 0 {
        lemma_launching(link, kbps, now);
        if kbps == 0 {
            lemma_transmitted(link.launching(kbps, now), kbps, now);
        }
    }
}

/// Dropping what has waited for too long keeps what holds of a link.
proof fn lemma_freshened(link: LinkModel, now: u64, queue_ms: u64)
    requires
        link.wf(),
    ensures
        link.freshened(now, queue_ms).wf(),
{
    lemma_fresh(link.high, now, queue_ms);
    lemma_fresh(link.low, now, queue_ms);
    lemma_sizes(link.high);
    lemma_sizes(link.low);
    lemma_sizes(link.flying);
    let after = link.freshened(now, queue_ms);
    assert forall|i: int| 0 <= i < after.high.len() implies (#[trigger] after.high[i]).kind
        != Kind::Video && queued_well(after.high[i]) by {
        assert(after.high[i] == link.high[link.high.len() - after.high.len() + i]);
    }
    assert forall|i: int| 0 <= i < after.low.len() implies (#[trigger] after.low[i]).kind
        == Kind::Video && queued_well(after.low[i]) by {
        assert(after.low[i] == link.low[link.low.len() - after.low.len() + i]);
    }
}

impl Direction {
    /// Drops the datagrams that have waited for too long.
    fn freshen(&mut self, now: u64, queue_ms: u64)
        requires
            old(self)@.wf(),
        ensures
            final(self)@ == old(self)@.freshened(now, queue_ms),
            final(self)@.wf(),
    {
        proof {
            lemma_freshened(self@, now, queue_ms);
            lemma_fresh(self@.high, now, queue_ms);
            lemma_fresh(self@.low, now, queue_ms);
            lemma_sizes(fresh(self@.high, now, queue_ms));
            lemma_sizes(self@.high);
            lemma_sizes(self@.low);
            lemma_sizes(self@.flying);
        }
        drop_stale(
            &mut self.high,
            &mut self.bytes,
            &mut self.counts.stale_drops,
            now,
            queue_ms,
        );
        drop_stale(
            &mut self.low,
            &mut self.bytes,
            &mut self.counts.stale_drops,
            now,
            queue_ms,
        );
        assert(self@ =~= old(self)@.freshened(now, queue_ms));
    }

    /// Puts the next datagram on the line.
    fn launch(&mut self, kbps: u32, now: u64)
        requires
            old(self)@.wf(),
            now <= CLOCK_LIMIT,
            old(self)@.high.len() + old(self)@.low.len() > 0,
        ensures
            final(self)@ == old(self)@.launching(kbps, now),
            final(self)@.wf(),
    {
        let ghost before = self@;
        proof {
            lemma_launching(before, kbps, now);
        }
        let next = if self.high.len() > 0 {
            self.high.pop_front()
        } else {
            self.low.pop_front()
        };
        if let Some(packet) = next {
            let ghost taken = packet@;
            assert(taken == if before.high.len() > 0 {
                before.high[0]
            } else {
                before.low[0]
            });
            let time: u64 = if kbps == 0 {
                0
            } else {
                double::to_nanoseconds(8 * (packet.size() as u128), 1000 * (kbps as u128)) as u64
            };
            self.free = now + time;
            let due: u64 = self.free + (packet.due - packet.arrived);
            let packet = Packet { data: packet.data, kind: packet.kind, arrived: packet.arrived, due };
            proof {
                lemma_datagrams_push(self.flying@, packet);
            }
            self.flying.push(packet);
        }
        assert(self@ =~= before.launching(kbps, now));
    }

    /// Puts as many datagrams on the line as can go.
    fn transmit(&mut self, kbps: u32, now: u64)
        requires
            old(self)@.wf(),
            now <= CLOCK_LIMIT,
        ensures
            final(self)@ == old(self)@.transmitted(kbps, now),
            final(self)@.wf(),
    {
        if kbps > 0 {
            if self.free <= now && (self.high.len() > 0 || self.low.len() > 0) {
                self.launch(kbps, now);
            }
            return;
        }
        while self.free <= now && (self.high.len() > 0 || self.low.len() > 0)
            invariant
                self@.wf(),
                now <= CLOCK_LIMIT,
                kbps == 0,
                self@.transmitted(kbps, now) == old(self)@.transmitted(kbps, now),
            decreases self@.high.len() + self@.low.len(),
        {
            self.launch(kbps, now);
        }
    }
}

/// What delivering a list of datagrams does to the counts.
proof fn lemma_delivering_all(counts: Counts, list: Seq<Datagram>)
    requires
        counts.delivered_packets + list.len() <= u64::MAX,
        counts.delivered_ip_bytes + sizes(list) <= u64::MAX,
        counts.delivered_packets == counts.audio_delivered + counts.video_delivered
            + counts.control_delivered,
    ensures
        ({
            let after = counts.delivering_all(list);
            &&& after.delivered_packets == counts.delivered_packets + list.len()
            &&& after.delivered_ip_bytes == counts.delivered_ip_bytes + sizes(list)
            &&& after.delivered_packets == after.audio_delivered + after.video_delivered
                + after.control_delivered
            &&& after == (Counts {
                delivered_packets: after.delivered_packets,
                delivered_ip_bytes: after.delivered_ip_bytes,
                audio_delivered: after.audio_delivered,
                video_delivered: after.video_delivered,
                control_delivered: after.control_delivered,
                ..counts
            })
        }),
    decreases list.len(),
{
    lemma_sizes(list);
    if list.len() > 0 {
        lemma_sizes(list.drop_last());
        lemma_delivering_all(counts, list.drop_last());
    }
}

/// One datagram more is either due or not.
proof fn lemma_next_arrival(list: Seq<Datagram>, now: u64, i: int)
    requires
        0 <= i < list.len(),
    ensures
        list[i].due <= now ==> {
            &&& list.take(i + 1).filter(due_by(now)) == list.take(i).filter(due_by(now)).push(
                list[i],
            )
            &&& list.take(i + 1).filter(due_after(now)) == list.take(i).filter(due_after(now))
        },
        list[i].due > now ==> {
            &&& list.take(i + 1).filter(due_by(now)) == list.take(i).filter(due_by(now))
            &&& list.take(i + 1).filter(due_after(now)) == list.take(i).filter(due_after(now)).push(
                list[i],
            )
        },
{
    reveal(Seq::filter);
    assert(list.take(i + 1).drop_last() =~= list.take(i));
}

/// The datagrams that are due and those that are not are together all of them.
pub(crate) proof fn lemma_arrivals(list: Seq<Datagram>, now: u64, i: int)
    requires
        0 <= i <= list.len(),
    ensures
        sizes(list.take(i).filter(due_by(now))) + sizes(list.take(i).filter(due_after(now)))
            == sizes(list.take(i)),
        list.take(i).filter(due_by(now)).len() + list.take(i).filter(due_after(now)).len() == i,
        sizes(list.take(i)) <= sizes(list),
        i < list.len() ==> sizes(list.take(i)) + list[i].size() <= sizes(list),
        i == list.len() ==> list.take(i) == list,
    decreases i,
{
    lemma_front(list, i);
    if i == list.len() {
        assert(list.take(i) =~= list);
    } else {
        lemma_front(list, i + 1);
        assert(list.take(i + 1).drop_last() =~= list.take(i));
    }
    if i == 0 {
        reveal(Seq::filter);
        assert(list.take(0) =~= seq![]);
    } else {
        lemma_arrivals(list, now, i - 1);
        lemma_next_arrival(list, now, i - 1);
        assert(list.take(i).drop_last() =~= list.take(i - 1));
        if list[i - 1].due <= now {
            lemma_sizes_push(list.take(i - 1).filter(due_by(now)), list[i - 1]);
        } else {
            lemma_sizes_push(list.take(i - 1).filter(due_after(now)), list[i - 1]);
        }
    }
}

/// The front of a list is not longer than the list.
proof fn lemma_front(list: Seq<Datagram>, i: int)
    requires
        0 <= i <= list.len(),
    ensures
        sizes(list.take(i)) <= sizes(list),
    decreases list.len() - i,
{
    if i == list.len() {
        assert(list.take(i) =~= list);
    } else {
        lemma_front(list, i + 1);
        assert(list.take(i + 1).drop_last() =~= list.take(i));
    }
}

/// Handing out what has arrived keeps what holds of a link.
proof fn lemma_landed(link: LinkModel, now: u64)
    requires
        link.wf(),
    ensures
        link.landed(now).wf(),
        link.counts.delivered_packets + link.arrivals(now).len() <= u64::MAX,
        link.counts.delivered_ip_bytes + sizes(link.arrivals(now)) <= u64::MAX,
{
    lemma_arrivals(link.flying, now, link.flying.len() as int);
    lemma_sizes(link.high);
    lemma_sizes(link.low);
    lemma_sizes(link.flying);
    lemma_sizes(link.flying.filter(due_after(now)));
    lemma_sizes(link.arrivals(now));
    lemma_delivering_all(link.counts, link.arrivals(now));
}

impl Direction {
    /// Hands out the datagrams that have reached the other end.
    fn land(&mut self, now: u64) -> (r: Vec<Packet>)
        requires
            old(self)@.wf(),
        ensures
            final(self)@ == old(self)@.landed(now),
            final(self)@.wf(),
            datagrams(r@) == old(self)@.arrivals(now),
    {
        let ghost start = self@;
        let ghost all = start.flying;
        let mut out: Vec<Packet> = Vec::new();
        let mut i: usize = 0;
        let ghost mut seen: int = 0;
        proof {
            lemma_landed(start, now);
            lemma_arrivals(all, now, 0);
            reveal(Seq::filter);
            assert(all.take(0) =~= seq![]);
            assert(datagrams(out@) =~= all.take(0).filter(due_by(now)));
            assert(self@.flying =~= all.take(0).filter(due_after(now)) + all.skip(0));
        }
        while i < self.flying.len()
            invariant
                start == old(self)@,
                start.wf(),
                all == start.flying,
                0 <= seen <= all.len(),
                i == all.take(seen).filter(due_after(now)).len(),
                self@.flying == all.take(seen).filter(due_after(now)) + all.skip(seen),
                datagrams(out@) == all.take(seen).filter(due_by(now)),
                self@.high == start.high,
                self@.low == start.low,
                self@.free == start.free,
                self@.rng == start.rng,
                self@.counts == start.counts.delivering_all(datagrams(out@)),
                self@.bytes == start.bytes - sizes(datagrams(out@)),
            decreases all.len() - seen,
        {
            let ghost before = self@;
            let ghost handed = datagrams(out@);
            proof {
                assert(self.flying@[i as int]@ == self@.flying[i as int]);
                assert(self@.flying[i as int] == all[seen]);
                lemma_arrivals(all, now, seen);
                lemma_arrivals(all, now, seen + 1);
                lemma_arrivals(all, now, all.len() as int);
                lemma_next_arrival(all, now, seen);
                lemma_sizes(start.high);
                lemma_sizes(start.low);
                lemma_sizes(all);
                lemma_sizes(all.take(seen).filter(due_after(now)));
                lemma_sizes(all.take(seen + 1).filter(due_after(now)));
                lemma_delivering_all(start.counts, handed);
            }
            if self.flying[i].due <= now {
                let packet = self.flying.remove(i);
                assert(packet@ == all[seen]);
                let size: usize = packet.size();
                proof {
                    lemma_sizes_push(handed, packet@);
                    lemma_datagrams_push(out@, packet);
                    assert(handed.push(packet@).drop_last() =~= handed);
                }
                self.bytes = self.bytes - size;
                self.counts.delivered_packets = self.counts.delivered_packets + 1;
                self.counts.delivered_ip_bytes = self.counts.delivered_ip_bytes + size as u64;
                match packet.kind {
                    Kind::Audio => {
                        self.counts.audio_delivered = self.counts.audio_delivered + 1;
                    },
                    Kind::Video => {
                        self.counts.video_delivered = self.counts.video_delivered + 1;
                    },
                    Kind::Control => {
                        self.counts.control_delivered = self.counts.control_delivered + 1;
                    },
                }
                assert(self@.flying =~= before.flying.remove(i as int));
                out.push(packet);
            } else {
                i += 1;
            }
            proof {
                seen = seen + 1;
                assert(self@.flying =~= all.take(seen).filter(due_after(now)) + all.skip(seen));
            }
        }
        proof {
            assert(seen == all.len()) by {
                if seen < all.len() {
                    assert(all.skip(seen).len() > 0);
                }
            }
            lemma_arrivals(all, now, seen);
            assert(all.skip(seen) =~= seq![]);
            assert(self@ =~= start.landed(now));
        }
        out
    }

    /// A regular look at the link: what has waited for too long is dropped, what can leaves its
    /// queue, and what has reached the other end is handed out. During an outage all is dropped.
    pub fn pump(&mut self, phase: &Phase, cfg: &Config, now: u64) -> (r: Vec<Packet>)
        requires
            old(self)@.wf(),
            now <= CLOCK_LIMIT,
        ensures
            final(self)@ == old(self)@.pumped(*phase, cfg.queue_ms, now),
            final(self)@.wf(),
            datagrams(r@) == old(self)@.delivered(*phase, cfg.queue_ms, now),
    {
        if phase.outage {
            self.flush_outage(now);
            let none: Vec<Packet> = Vec::new();
            assert(datagrams(none@) =~= seq![]);
            return none;
        }
        self.freshen(now, cfg.queue_ms);
        self.transmit(phase.kbps, now);
        self.land(now)
    }
}

/// What a datagram that comes in does to the bytes, the peak and the accounts of a link.
proof fn lemma_enqueued_accounts(
    link: LinkModel,
    data: Seq<u8>,
    phase: Phase,
    queue_bytes: usize,
    now: u64,
)
    requires
        link.measured(),
    ensures
        ({
            let after = link.enqueued(data, phase, queue_bytes, now);
            &&& after.measured()
            &&& link.bytes <= queue_bytes ==> after.bytes <= queue_bytes
            &&& link.bytes <= link.counts.peak_queue_bytes <= queue_bytes ==> after.bytes
                <= after.counts.peak_queue_bytes <= queue_bytes
            &&& link.balanced() && link.counts.received_packets < u64::MAX
                && link.counts.received_ip_bytes + data.len() + 28 <= u64::MAX ==> {
                &&& after.balanced()
                &&& after.counts.received_packets == link.counts.received_packets + 1
                &&& after.counts.received_ip_bytes == link.counts.received_ip_bytes + data.len()
                    + 28
            }
        }),
{
    let size = data.len() as int + 28;
    let rng = next_random(link.rng);
    let drawn = LinkModel { rng, counts: link.counts.receiving(size), ..link };
    lemma_sizes(link.high);
    lemma_sizes(link.low);
    lemma_sizes(link.flying);
    lemma_evicting(drawn, size, queue_bytes as int);
    let kind = kind_of(data);
    let cleared = if kind == Kind::Video {
        drawn
    } else {
        drawn.evicting(size, queue_bytes as int)
    };
    lemma_sizes(cleared.high);
    lemma_sizes(cleared.low);
    lemma_sizes(cleared.flying);
    let last = next_random(rng);
    let delay = propagation(phase.delay_ms, phase.jitter_ms, draw_of(last));
    let packet = Datagram { data, kind, arrived: now, due: (now + delay) as u64 };
    lemma_sizes_push(cleared.high, packet);
    lemma_sizes_push(cleared.low, packet);
}

/// Leaving the queues changes no count, no length and no number of datagrams.
pub(crate) proof fn lemma_transmitted_counts(link: LinkModel, kbps: u32, now: u64)
    ensures
        link.transmitted(kbps, now).counts == link.counts,
        link.transmitted(kbps, now).bytes == link.bytes,
        link.transmitted(kbps, now).rng == link.rng,
        link.transmitted(kbps, now).stored() == link.stored(),
        link.measured() ==> link.transmitted(kbps, now).measured(),
    decreases link.high.len() + link.low.len(),
{
    if link.free <= now && link.high.len() + link.low.len() > 0 {
        let after = link.launching(kbps, now);
        if link.high.len() > 0 {
            lemma_sizes_first(link.high);
        } else {
            lemma_sizes_first(link.low);
        }
        lemma_sizes_push(link.flying, after.flying.last());
        if kbps == 0 {
            lemma_transmitted_counts(after, kbps, now);
        }
    }
}

/// Deliveries leave the peak as it is.
proof fn lemma_peak_kept(counts: Counts, list: Seq<Datagram>)
    ensures
        counts.delivering_all(list).peak_queue_bytes == counts.peak_queue_bytes,
    decreases list.len(),
{
    if list.len() > 0 {
        lemma_peak_kept(counts, list.drop_last());
    }
}

/// What a regular look does to the bytes, the peak and the accounts of a link.
pub(crate) proof fn lemma_pumped_accounts(link: LinkModel, phase: Phase, queue_ms: u64, now: u64)
    requires
        link.measured(),
    ensures
        ({
            let after = link.pumped(phase, queue_ms, now);
            &&& after.measured()
            &&& after.bytes <= link.bytes
            &&& after.counts.peak_queue_bytes == link.counts.peak_queue_bytes
            &&& link.balanced() ==> {
                &&& after.balanced()
                &&& after.counts.received_packets == link.counts.received_packets
                &&& after.counts.received_ip_bytes == link.counts.received_ip_bytes
                &&& after.counts.delivered_packets == link.counts.delivered_packets
                    + link.delivered(phase, queue_ms, now).len()
            }
        }),
{
    lemma_sizes(link.high);
    lemma_sizes(link.low);
    lemma_sizes(link.flying);
    if !phase.outage {
        lemma_fresh(link.high, now, queue_ms);
        lemma_fresh(link.low, now, queue_ms);
        let fresh_link = link.freshened(now, queue_ms);
        lemma_sizes(fresh_link.high);
        lemma_sizes(fresh_link.low);
        lemma_transmitted_counts(fresh_link, phase.kbps, now);
        let moved = link.advanced(phase, queue_ms, now);
        let out = moved.arrivals(now);
        lemma_sizes(moved.high);
        lemma_sizes(moved.low);
        lemma_sizes(moved.flying);
        lemma_sizes(out);
        lemma_arrivals(moved.flying, now, moved.flying.len() as int);
        lemma_sizes(moved.flying.filter(due_after(now)));
        lemma_peak_kept(moved.counts, out);
        if link.balanced() {
            assert(fresh_link.balanced());
            assert(moved.balanced());
            lemma_delivering_all(moved.counts, out);
        }
    }
}

/// What an outage does to the bytes, the peak and the accounts of a link.
pub(crate) proof fn lemma_flushed_accounts(link: LinkModel, now: u64)
    requires
        link.measured(),
    ensures
        ({
            let after = link.flushed(now);
            &&& after.measured()
            &&& after.bytes == 0 <= link.bytes
            &&& after.counts.peak_queue_bytes == link.counts.peak_queue_bytes
            &&& link.balanced() ==> {
                &&& after.balanced()
                &&& after.counts.received_packets == link.counts.received_packets
                &&& after.counts.received_ip_bytes == link.counts.received_ip_bytes
            }
        }),
{
    lemma_sizes(link.high);
    lemma_sizes(link.low);
    lemma_sizes(link.flying);
}

/// Something that happens to a link.
pub enum Event {
    /// A datagram comes in.
    Arrival(Seq<u8>, Phase, u64),
    /// A regular look.
    Look(Phase, u64),
    /// All is dropped.
    Flush(u64),
}

impl LinkModel {
    /// The link after something happened to it.
    pub open spec fn after(self, event: Event, queue_bytes: usize, queue_ms: u64) -> LinkModel {
        match event {
            Event::Arrival(data, phase, now) => self.enqueued(data, phase, queue_bytes, now),
            Event::Look(phase, now) => self.pumped(phase, queue_ms, now),
            Event::Flush(now) => self.flushed(now),
        }
    }

    /// The link after all that happened to it.
    pub open spec fn after_all(self, events: Seq<Event>, queue_bytes: usize, queue_ms: u64) -> LinkModel
        decreases events.len(),
    {
        if events.len() == 0 {
            self
        } else {
            self.after_all(events.drop_last(), queue_bytes, queue_ms).after(
                events.last(),
                queue_bytes,
                queue_ms,
            )
        }
    }
}

/// How many datagrams come in.
pub open spec fn arrival_count(events: Seq<Event>) -> nat
    decreases events.len(),
{
    if events.len() == 0 {
        0
    } else {
        arrival_count(events.drop_last()) + (if events.last() is Arrival {
            1nat
        } else {
            0
        })
    }
}

/// How many bytes come in, with the headers of IPv4 and UDP.
pub open spec fn arrival_bytes(events: Seq<Event>) -> nat
    decreases events.len(),
{
    if events.len() == 0 {
        0
    } else {
        arrival_bytes(events.drop_last()) + (match events.last() {
            Event::Arrival(data, _, _) => data.len() + 28,
            _ => 0,
        })
    }
}

/// Whatever happens to a new link, whenever it happens and however its queue is bounded: every
/// datagram that came in was delivered, was dropped for a reason that is counted, or is still on the
/// link; every delivered one is counted under its kind; and the link's bytes are those of the
/// datagrams that it holds. The counters must be able to count what comes in.
pub proof fn law_every_datagram_is_accounted_for(
    seed: u64,
    start: u64,
    events: Seq<Event>,
    queue_bytes: usize,
    queue_ms: u64,
)
    requires
        arrival_count(events) <= u64::MAX,
        arrival_bytes(events) <= u64::MAX,
    ensures
        ({
            let link = LinkModel::fresh(seed, start).after_all(events, queue_bytes, queue_ms);
            let counts = link.counts;
            &&& counts.received_packets == arrival_count(events)
            &&& counts.received_ip_bytes == arrival_bytes(events)
            &&& counts.received_packets == counts.delivered_packets + counts.loss_drops
                + counts.outage_drops + counts.queue_drops + counts.stale_drops + link.high.len()
                + link.low.len() + link.flying.len()
            &&& counts.delivered_packets == counts.audio_delivered + counts.video_delivered
                + counts.control_delivered
            &&& link.bytes == sizes(link.high) + sizes(link.low) + sizes(link.flying)
            &&& link.balanced()
        }),
    decreases events.len(),
{
    if events.len() > 0 {
        let front = events.drop_last();
        law_every_datagram_is_accounted_for(seed, start, front, queue_bytes, queue_ms);
        let link = LinkModel::fresh(seed, start).after_all(front, queue_bytes, queue_ms);
        match events.last() {
            Event::Arrival(data, phase, now) => {
                lemma_enqueued_accounts(link, data, phase, queue_bytes, now);
            },
            Event::Look(phase, now) => {
                lemma_pumped_accounts(link, phase, queue_ms, now);
            },
            Event::Flush(now) => {
                lemma_flushed_accounts(link, now);
            },
        }
    }
}

/// Every datagram that a regular look hands out is counted as delivered, and no other.
pub proof fn law_deliveries_are_counted(link: LinkModel, phase: Phase, queue_ms: u64, now: u64)
    requires
        link.balanced(),
    ensures
        link.pumped(phase, queue_ms, now).counts.delivered_packets == link.counts.delivered_packets
            + link.delivered(phase, queue_ms, now).len(),
{
    lemma_pumped_accounts(link, phase, queue_ms, now);
}

/// Whatever happens to a new link, whenever it happens and however its queue is bounded: its bytes,
/// those of datagrams on the line included, are within the peak that it reports, and the peak is
/// within the bounds of its queue.
pub proof fn law_queue_is_bounded(
    seed: u64,
    start: u64,
    events: Seq<Event>,
    queue_bytes: usize,
    queue_ms: u64,
)
    ensures
        ({
            let link = LinkModel::fresh(seed, start).after_all(events, queue_bytes, queue_ms);
            &&& link.measured()
            &&& link.bytes <= link.counts.peak_queue_bytes <= queue_bytes
        }),
    decreases events.len(),
{
    if events.len() > 0 {
        let front = events.drop_last();
        law_queue_is_bounded(seed, start, front, queue_bytes, queue_ms);
        let link = LinkModel::fresh(seed, start).after_all(front, queue_bytes, queue_ms);
        match events.last() {
            Event::Arrival(data, phase, now) => {
                lemma_enqueued_accounts(link, data, phase, queue_bytes, now);
            },
            Event::Look(phase, now) => {
                lemma_pumped_accounts(link, phase, queue_ms, now);
            },
            Event::Flush(now) => {
                lemma_flushed_accounts(link, now);
            },
        }
    }
}

/// Whatever comes in, no datagram that is on the line is touched, nothing but pictures is evicted,
/// and those only for something else than a picture. A picture is queued only where the queue is
/// filled to four fifths of it at most.
pub proof fn law_only_pictures_are_evicted(
    link: LinkModel,
    data: Seq<u8>,
    phase: Phase,
    queue_bytes: usize,
    now: u64,
)
    requires
        link.measured(),
    ensures
        ({
            let after = link.enqueued(data, phase, queue_bytes, now);
            &&& after.flying == link.flying
            &&& link.high.is_prefix_of(after.high)
            &&& kind_of(data) == Kind::Video ==> link.low.is_prefix_of(after.low)
            &&& kind_of(data) == Kind::Video && after.stored() > link.stored() ==> link.bytes
                + data.len() + 28 <= queue_bytes * 4 / 5
            &&& kind_of(data) != Kind::Video ==> after.low.is_prefix_of(link.low)
        }),
{
    let size = data.len() as int + 28;
    lemma_evicting(
        LinkModel { rng: next_random(link.rng), counts: link.counts.receiving(size), ..link },
        size,
        queue_bytes as int,
    );
}

/// On a line with a limited rate a picture leaves only when nothing else waits, one datagram
/// leaves at a time, and until it is through the next look lets nothing leave.
pub proof fn law_line_is_shared_by_priority(link: LinkModel, kbps: u32, now: u64, later: u64)
    requires
        link.wf(),
        now <= CLOCK_LIMIT,
        kbps > 0,
        link.free <= now,
        link.high.len() + link.low.len() > 0,
    ensures
        ({
            let after = link.transmitted(kbps, now);
            &&& after.flying.len() == link.flying.len() + 1
            &&& after.flying.drop_last() == link.flying
            &&& link.high.len() > 0 ==> after.flying.last().data == link.high[0].data && after.low
                == link.low && after.flying.last().kind != Kind::Video
            &&& link.high.len() == 0 ==> after.flying.last().data == link.low[0].data
            &&& after.free == now + serialization(after.flying.last().size(), kbps)
            &&& later < after.free ==> after.transmitted(kbps, later) == after
        }),
{
    lemma_launching(link, kbps, now);
    let after = link.transmitted(kbps, now);
    assert(after.flying.drop_last() =~= link.flying);
}

/// During an outage nothing is on the link after a look at it, and nothing is handed out.
pub proof fn law_outage_empties_link(link: LinkModel, phase: Phase, queue_ms: u64, now: u64)
    requires
        phase.outage,
    ensures
        link.pumped(phase, queue_ms, now).stored() == 0,
        link.pumped(phase, queue_ms, now).bytes == 0,
        link.delivered(phase, queue_ms, now).len() == 0,
{
}

/// Whether two lists hold the same datagrams, but for their times.
pub open spec fn alike(a: Seq<Datagram>, b: Seq<Datagram>) -> bool {
    a.len() == b.len() && forall|i: int|
        0 <= i < a.len() ==> (#[trigger] a[i]).data == b[i].data && a[i].kind == b[i].kind
}

/// Whether two links are the same, but for the times of their datagrams.
pub open spec fn same_but_times(a: LinkModel, b: LinkModel) -> bool {
    &&& alike(a.high, b.high)
    &&& alike(a.low, b.low)
    &&& a.bytes == b.bytes
    &&& a.rng == b.rng
    &&& a.counts == b.counts
}

proof fn lemma_evicting_alike(a: LinkModel, b: LinkModel, size: int, limit: int)
    requires
        same_but_times(a, b),
    ensures
        same_but_times(a.evicting(size, limit), b.evicting(size, limit)),
    decreases a.low.len(),
{
    if a.bytes + size > limit && a.low.len() > 0 {
        assert(a.low.last().data == b.low.last().data) by {
            assert(a.low[a.low.len() - 1].data == b.low[a.low.len() - 1].data);
        }
        lemma_evicting_alike(
            LinkModel {
                low: a.low.drop_last(),
                bytes: a.bytes - a.low.last().size(),
                counts: a.counts.crowded(1),
                ..a
            },
            LinkModel {
                low: b.low.drop_last(),
                bytes: b.bytes - b.low.last().size(),
                counts: b.counts.crowded(1),
                ..b
            },
            size,
            limit,
        );
    }
}

/// Losses are repeatable: links with one seed that were given the same datagrams, whenever each of
/// them came, have lost, dropped and queued the same ones.
pub proof fn law_losses_are_repeatable(
    a: LinkModel,
    b: LinkModel,
    data: Seq<u8>,
    phase: Phase,
    queue_bytes: usize,
    first: u64,
    second: u64,
)
    requires
        same_but_times(a, b),
    ensures
        same_but_times(
            a.enqueued(data, phase, queue_bytes, first),
            b.enqueued(data, phase, queue_bytes, second),
        ),
{
    let size = data.len() as int + 28;
    let rng = next_random(a.rng);
    let x = LinkModel { rng, counts: a.counts.receiving(size), ..a };
    let y = LinkModel { rng, counts: b.counts.receiving(size), ..b };
    lemma_evicting_alike(x, y, size, queue_bytes as int);
}

/// Within the bounds that a description of a link must keep, a delay is never further from the
/// link's delay than the jitter, and never negative.
pub proof fn law_delay_stays_within_jitter(delay_ms: u32, jitter_ms: u32, draw: u64)
    requires
        draw < 0x20_0000_0000_0000,
        delay_ms <= 2000,
        jitter_ms <= 2000,
    ensures
        ({
            let delay = propagation(delay_ms, jitter_ms, draw);
            &&& 0 <= delay
            &&& (delay_ms - jitter_ms) * 1_000_000 <= delay
            &&& delay <= (delay_ms + jitter_ms) * 1_000_000
        }),
{
    lemma_jitter_part(jitter_ms, draw);
    let sum = delay_ms * 0x20_0000_0000_0000 + jitter_part(jitter_ms, draw);
    if sum > 0 {
        let whole = double::rounded(sum as nat);
        let den = 1000nat * 0x20_0000_0000_0000;
        double::lemma_rounded(sum as nat);
        double::lemma_nanoseconds(whole, den);
    }
}

/// The link tells the packets of a call apart by their payload types, marked or not.
pub proof fn law_media_packets_are_recognised(data: Seq<u8>)
    requires
        data.len() >= 12,
        data[0] / 64 == 2,
    ensures
        data[1] % 128 == AUDIO_PAYLOAD ==> kind_of(data) == Kind::Audio,
        data[1] % 128 == VIDEO_PAYLOAD ==> kind_of(data) == Kind::Video,
{
}

/// Whether a list holds a datagram with the given bytes.
pub open spec fn holds(list: Seq<Datagram>, data: Seq<u8>) -> bool {
    exists|i: int| 0 <= i < list.len() && (#[trigger] list[i]).data == data
}

/// Whether a link holds a datagram with the given bytes.
pub open spec fn carries(link: LinkModel, data: Seq<u8>) -> bool {
    holds(link.high, data) || holds(link.low, data) || holds(link.flying, data)
}

/// What leaves a queue is on the line.
proof fn lemma_launching_carries(link: LinkModel, kbps: u32, now: u64, data: Seq<u8>)
    requires
        link.high.len() + link.low.len() > 0,
        carries(link.launching(kbps, now), data),
    ensures
        carries(link, data),
{
    let after = link.launching(kbps, now);
    let packet = if link.high.len() > 0 {
        link.high[0]
    } else {
        link.low[0]
    };
    if holds(after.high, data) {
        let i = choose|i: int| 0 <= i < after.high.len() && (#[trigger] after.high[i]).data == data;
        if link.high.len() > 0 {
            assert(link.high[i + 1].data == data);
        }
    } else if holds(after.low, data) {
        let i = choose|i: int| 0 <= i < after.low.len() && (#[trigger] after.low[i]).data == data;
        if link.high.len() > 0 {
            assert(link.low[i].data == data);
        } else {
            assert(link.low[i + 1].data == data);
        }
    } else {
        let i = choose|i: int|
            0 <= i < after.flying.len() && (#[trigger] after.flying[i]).data == data;
        if i < link.flying.len() {
            assert(link.flying[i].data == data);
        } else {
            assert(packet.data == data);
        }
    }
}

proof fn lemma_transmitted_carries(link: LinkModel, kbps: u32, now: u64, data: Seq<u8>)
    requires
        carries(link.transmitted(kbps, now), data),
    ensures
        carries(link, data),
    decreases link.high.len() + link.low.len(),
{
    if link.free <= now && link.high.len() + link.low.len() > 0 {
        if kbps == 0 {
            lemma_transmitted_carries(link.launching(kbps, now), kbps, now, data);
        }
        lemma_launching_carries(link, kbps, now, data);
    }
}

/// A filter adds nothing.
proof fn lemma_filter_holds(list: Seq<Datagram>, wanted: spec_fn(Datagram) -> bool, i: int)
    requires
        0 <= i < list.filter(wanted).len(),
    ensures
        holds(list, list.filter(wanted)[i].data),
    decreases list.len(),
{
    reveal(Seq::filter);
    if list.len() > 0 {
        let front = list.drop_last();
        let packet = list.filter(wanted)[i];
        if i < front.filter(wanted).len() {
            lemma_filter_holds(front, wanted, i);
            let k = choose|k: int| 0 <= k < front.len() && (#[trigger] front[k]).data == packet.data;
            assert(list[k].data == packet.data);
        } else {
            assert(list[list.len() - 1].data == packet.data);
        }
    }
}

/// The link alters no datagram and makes none up: whatever it hands out was on it.
pub proof fn law_datagrams_are_not_altered(
    link: LinkModel,
    phase: Phase,
    queue_ms: u64,
    now: u64,
    i: int,
)
    requires
        0 <= i < link.delivered(phase, queue_ms, now).len(),
    ensures
        carries(link, link.delivered(phase, queue_ms, now)[i].data),
{
    let data = link.delivered(phase, queue_ms, now)[i].data;
    let fresh_link = link.freshened(now, queue_ms);
    let moved = link.advanced(phase, queue_ms, now);
    lemma_filter_holds(moved.flying, due_by(now), i);
    assert(carries(moved, data));
    lemma_transmitted_carries(fresh_link, phase.kbps, now, data);
    lemma_fresh(link.high, now, queue_ms);
    lemma_fresh(link.low, now, queue_ms);
    if holds(fresh_link.high, data) {
        let list = fresh_link.high;
        let k = choose|k: int| 0 <= k < list.len() && (#[trigger] list[k]).data == data;
        assert(link.high[link.high.len() - list.len() + k].data == data);
    } else if holds(fresh_link.low, data) {
        let list = fresh_link.low;
        let k = choose|k: int| 0 <= k < list.len() && (#[trigger] list[k]).data == data;
        assert(link.low[link.low.len() - list.len() + k].data == data);
    }
}

/// No draw is below zero.
proof fn lemma_not_below_zero(draw: u64, phase: Phase)
    requires
        phase.loss_percent.finite(),
        phase.loss_percent.scaled() == 0,
    ensures
        !double::draws_below(draw, phase.loss_percent),
{
    let value = double::rounded((100 * draw) as nat);
    let unit = vstd::arithmetic::power2::pow2(1021);
    assert(value * unit >= 0) by (nonlinear_arith)
        requires
            value >= 0,
            unit >= 0,
    ;
}

/// A link without impairment that holds nothing hands a datagram out as it came, at the next look
/// and once.
pub proof fn law_clean_link_passes_datagrams(
    link: LinkModel,
    data: Seq<u8>,
    phase: Phase,
    queue_bytes: usize,
    queue_ms: u64,
    now: u64,
)
    requires
        link.wf(),
        link.stored() == 0,
        link.free <= now <= CLOCK_LIMIT,
        !phase.outage,
        phase.loss_percent.finite() && phase.loss_percent.scaled() == 0,
        phase.kbps == 0,
        phase.delay_ms == 0,
        phase.jitter_ms == 0,
        queue_bytes <= QUEUE_LIMIT,
        data.len() + 28 <= room_for(kind_of(data), queue_bytes),
        link.counts.received_packets < u64::MAX,
        link.counts.received_ip_bytes + data.len() + 28 <= u64::MAX,
    ensures
        ({
            let queued = link.enqueued(data, phase, queue_bytes, now);
            let out = queued.delivered(phase, queue_ms, now);
            &&& out.len() == 1
            &&& out[0].data == data
            &&& queued.pumped(phase, queue_ms, now).stored() == 0
        }),
{
    let size = data.len() as int + 28;
    let kind = kind_of(data);
    let rng = next_random(link.rng);
    let last = next_random(rng);
    lemma_random(rng);
    lemma_random(last);
    lemma_not_below_zero(draw_of(rng), phase);
    let queued = link.enqueued(data, phase, queue_bytes, now);
    assert(link.high =~= seq![] && link.low =~= seq![] && link.flying =~= seq![]);
    lemma_jitter_part(0, draw_of(last));
    assert(propagation(0, 0, draw_of(last)) == 0);
    let packet = Datagram { data, kind, arrived: now, due: now };
    let start = LinkModel { rng, counts: link.counts.receiving(size), ..link };
    assert(start.evicting(size, queue_bytes as int) == start);
    assert(queued == LinkModel { rng: last, ..start }.storing(packet));
    let fresh_link = queued.freshened(now, queue_ms);
    assert(fresh(queued.high, now, queue_ms) == queued.high);
    assert(fresh(queued.low, now, queue_ms) == queued.low);
    let launched = fresh_link.launching(0, now);
    assert(launched.flying =~= seq![packet]);
    assert(launched.high.len() == 0 && launched.low.len() == 0);
    assert(launched.transmitted(0, now) == launched);
    assert(fresh_link.transmitted(0, now) == launched);
    lemma_arrivals(launched.flying, now, 0);
    lemma_arrivals(launched.flying, now, 1);
    lemma_next_arrival(launched.flying, now, 0);
    assert(launched.flying.take(1) =~= launched.flying);
    assert(queued.advanced(phase, queue_ms, now) == launched);
}

} // verus!
