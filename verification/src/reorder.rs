//! The short wait for audio packets that overtook one another.
use crate::metrics::Metrics;
use crate::packets::RtpPacket;
use vstd::prelude::*;

verus! {

/// How long the first packet in the queue waits for the one that is expected, in nanoseconds.
pub const PATIENCE_NS: u64 = 30_000_000;

/// How many packets wait for the one that is expected.
pub const WINDOW: usize = 32;

/// How far a sequence number is ahead of another. Sequence numbers wrap around.
pub open spec fn ahead(sequence: u16, expected: u16) -> int {
    (sequence - expected) % 0x1_0000
}

/// How far a packet in the queue is ahead of the one that is expected.
pub open spec fn lead(entry: (RtpPacket, u64), expected: u16) -> int {
    ahead(entry.0.sequence_number, expected)
}

/// Whether a packet in the queue is the first of those that are the least ahead.
pub open spec fn is_nearest(queued: Seq<(RtpPacket, u64)>, expected: u16, i: int) -> bool {
    &&& 0 <= i < queued.len()
    &&& forall|k: int|
        0 <= k < queued.len() ==> lead(queued[i], expected) <= #[trigger] lead(queued[k], expected)
    &&& forall|k: int|
        0 <= k < i ==> lead(queued[i], expected) < #[trigger] lead(queued[k], expected)
}

/// Whether the queue has waited long enough: it is full, or its first packet came too long ago.
pub open spec fn overdue(queued: Seq<(RtpPacket, u64)>, now: u64) -> bool {
    queued.len() >= WINDOW || (queued.len() > 0 && now - queued[0].1 >= PATIENCE_NS)
}

/// Audio packets that wait for an earlier one, each with the time at which it came.
pub struct AudioReorder {
    pub expected: Option<u16>,
    pub queued: Vec<(RtpPacket, u64)>,
}

impl AudioReorder {
    /// No packet waits twice, and each is ahead of the expected one by less than half of the
    /// numbers.
    pub open spec fn wf(self) -> bool {
        &&& self.expected is None ==> self.queued@.len() == 0
        &&& forall|i: int|
            0 <= i < self.queued@.len() ==> #[trigger] lead(
                self.queued@[i],
                self.expected->Some_0,
            ) <= 32767
        &&& forall|i: int, j: int|
            0 <= i < j < self.queued@.len() ==> (#[trigger] self.queued@[i]).0.sequence_number != (
            #[trigger] self.queued@[j]).0.sequence_number
    }

    /// Whether a packet is taken in: it is not behind the expected one, and not here already.
    pub open spec fn admits(self, sequence: u16) -> bool {
        &&& self.expected matches Some(expected) ==> ahead(sequence, expected) <= 32767
        &&& forall|i: int|
            0 <= i < self.queued@.len() ==> (#[trigger] self.queued@[i]).0.sequence_number
                != sequence
    }

    /// Whether the expected packet is here.
    pub open spec fn arrived(self, expected: u16) -> bool {
        exists|i: int|
            0 <= i < self.queued@.len() && (#[trigger] self.queued@[i]).0.sequence_number
                == expected
    }

    /// Whether a packet can be passed on.
    pub open spec fn releases(self, now: u64) -> bool {
        &&& self.queued@.len() > 0
        &&& self.expected matches Some(expected)
        &&& self.arrived(self.expected->Some_0) || overdue(self.queued@, now)
    }

    /// Nothing received yet.
    pub fn new() -> (r: Self)
        ensures
            r.wf(),
            r.expected is None,
            r.queued@.len() == 0,
    {
        AudioReorder { expected: None, queued: Vec::new() }
    }

    /// Takes a packet in, unless it comes too late or is here already.
    pub fn push(&mut self, packet: RtpPacket, now: u64) -> (r: bool)
        requires
            old(self).wf(),
        ensures
            final(self).wf(),
            r == old(self).admits(packet.sequence_number),
            !r ==> *final(self) == *old(self),
            r ==> final(self).queued@ == old(self).queued@.push((packet, now)),
            r ==> final(self).expected == (if old(self).expected is None {
                Some(packet.sequence_number)
            } else {
                old(self).expected
            }),
    {
        let sequence: u16 = packet.sequence_number;
        if let Some(expected) = self.expected {
            if sequence.wrapping_sub(expected) > 32767 {
                return false;
            }
        }
        let mut i: usize = 0;
        while i < self.queued.len()
            invariant
                *self == *old(self),
                old(self).wf(),
                sequence == packet.sequence_number,
                i <= self.queued@.len(),
                forall|k: int|
                    0 <= k < i ==> (#[trigger] self.queued@[k]).0.sequence_number != sequence,
            decreases self.queued@.len() - i,
        {
            if self.queued[i].0.sequence_number == sequence {
                return false;
            }
            i += 1;
        }
        if self.expected.is_none() {
            self.expected = Some(sequence);
        }
        self.queued.push((packet, now));
        true
    }

    /// Takes a packet in, and counts it where it comes too late or is here already.
    pub fn receive(&mut self, packet: RtpPacket, now: u64, metrics: &mut Metrics)
        requires
            old(self).wf(),
        ensures
            final(self).wf(),
            old(self).admits(packet.sequence_number) ==> {
                &&& *final(metrics) == *old(metrics)
                &&& final(self).queued@ == old(self).queued@.push((packet, now))
                &&& final(self).expected == (if old(self).expected is None {
                    Some(packet.sequence_number)
                } else {
                    old(self).expected
                })
            },
            !old(self).admits(packet.sequence_number) ==> {
                &&& *final(self) == *old(self)
                &&& *final(metrics) == (Metrics {
                    late_packets: old(metrics).late_packets.wrapping_add(1),
                    ..*old(metrics)
                })
            },
    {
        if !self.push(packet, now) {
            crate::metrics::add(&mut metrics.late_packets, 1);
        }
    }

    /// Passes on the expected packet, or the nearest one where the expected one is given up.
    pub fn pop(&mut self, now: u64) -> (r: Option<RtpPacket>)
        requires
            old(self).wf(),
        ensures
            final(self).wf(),
            r is Some <==> old(self).releases(now),
            r is None ==> *final(self) == *old(self) && final(self).queued@.len() < WINDOW,
            r matches Some(packet) ==> {
                &&& final(self).expected == Some(packet.sequence_number.wrapping_add(1))
                &&& exists|i: int|
                    {
                        &&& #[trigger] is_nearest(
                            old(self).queued@,
                            old(self).expected->Some_0,
                            i,
                        )
                        &&& packet == old(self).queued@[i].0
                        &&& final(self).queued@ == old(self).queued@.remove(i)
                    }
            },
    {
        let expected: u16 = match self.expected {
            Some(expected) => expected,
            None => {
                return None;
            },
        };
        if self.queued.len() == 0 {
            return None;
        }
        let mut nearest: usize = 0;
        let mut i: usize = 1;
        while i < self.queued.len()
            invariant
                *self == *old(self),
                nearest < i <= self.queued@.len(),
                forall|k: int|
                    0 <= k < i ==> lead(self.queued@[nearest as int], expected) <= #[trigger] lead(
                        self.queued@[k],
                        expected,
                    ),
                forall|k: int|
                    0 <= k < nearest ==> lead(self.queued@[nearest as int], expected)
                        < #[trigger] lead(self.queued@[k], expected),
            decreases self.queued@.len() - i,
        {
            let distance: u16 = self.queued[i].0.sequence_number.wrapping_sub(expected);
            let least: u16 = self.queued[nearest].0.sequence_number.wrapping_sub(expected);
            assert(distance == lead(self.queued@[i as int], expected));
            assert(least == lead(self.queued@[nearest as int], expected));
            if distance < least {
                nearest = i;
            }
            i += 1;
        }
        assert(is_nearest(self.queued@, expected, nearest as int));
        let waited: u64 = now.saturating_sub(self.queued[0].1);
        let here = self.queued[nearest].0.sequence_number == expected;
        proof {
            if here {
                assert(self.queued@[nearest as int].0.sequence_number == expected);
            } else {
                assert forall|k: int| 0 <= k < self.queued@.len() implies (
                #[trigger] self.queued@[k]).0.sequence_number != expected by {
                    assert(lead(self.queued@[k], expected) >= lead(
                        self.queued@[nearest as int],
                        expected,
                    ));
                }
            }
        }
        if !here && self.queued.len() < WINDOW && waited < PATIENCE_NS {
            return None;
        }
        let (packet, _) = self.queued.remove(nearest);
        self.expected = Some(packet.sequence_number.wrapping_add(1));
        proof {
            lemma_removed(*old(self), *self, nearest as int);
        }
        Some(packet)
    }
}

/// Without the nearest packet, the rest are still ahead of the one after it.
proof fn lemma_removed(before: AudioReorder, after: AudioReorder, i: int)
    requires
        before.wf(),
        before.expected is Some,
        is_nearest(before.queued@, before.expected->Some_0, i),
        after.queued@ == before.queued@.remove(i),
        after.expected == Some(before.queued@[i].0.sequence_number.wrapping_add(1)),
    ensures
        after.wf(),
{
    let expected = before.expected->Some_0;
    let next = after.expected->Some_0;
    assert forall|k: int| 0 <= k < after.queued@.len() implies #[trigger] lead(
        after.queued@[k],
        next,
    ) <= 32767 by {
        let j = if k < i {
            k
        } else {
            k + 1
        };
        assert(after.queued@[k] == before.queued@[j]);
        assert(lead(before.queued@[j], expected) <= 32767);
        assert(lead(before.queued@[i], expected) <= lead(before.queued@[j], expected));
        assert(before.queued@[i].0.sequence_number != before.queued@[j].0.sequence_number);
    }
    assert forall|k: int, l: int| 0 <= k < l < after.queued@.len() implies (
    #[trigger] after.queued@[k]).0.sequence_number != (
    #[trigger] after.queued@[l]).0.sequence_number by {
        let a = if k < i {
            k
        } else {
            k + 1
        };
        let b = if l < i {
            l
        } else {
            l + 1
        };
        assert(after.queued@[k] == before.queued@[a]);
        assert(after.queued@[l] == before.queued@[b]);
    }
}

/// Packets are passed on in the order of their numbers: the one that is passed on is ahead of the
/// expected one by less than half of the numbers, and what is expected next follows it. It is the
/// expected one itself, unless that has not come and the wait for it is over.
pub proof fn law_audio_comes_in_order(reorder: AudioReorder, now: u64, i: int)
    requires
        reorder.wf(),
        reorder.releases(now),
        is_nearest(reorder.queued@, reorder.expected->Some_0, i),
    ensures
        lead(reorder.queued@[i], reorder.expected->Some_0) <= 32767,
        lead(reorder.queued@[i], reorder.expected->Some_0) > 0 ==> overdue(reorder.queued@, now)
            && !reorder.arrived(reorder.expected->Some_0),
{
    let expected = reorder.expected->Some_0;
    if reorder.arrived(expected) {
        let k = choose|k: int|
            0 <= k < reorder.queued@.len() && (#[trigger] reorder.queued@[k]).0.sequence_number
                == expected;
        assert(lead(reorder.queued@[k], expected) == 0);
    }
}

/// A packet that was passed on is not taken in again.
pub proof fn law_no_packet_twice(reorder: AudioReorder, sequence: u16)
    requires
        reorder.expected == Some(sequence.wrapping_add(1)),
    ensures
        !reorder.admits(sequence),
{
    assert(ahead(sequence, sequence.wrapping_add(1)) == 0xffff);
}

/// A packet is taken in exactly if it is less than half of the numbers ahead of the expected one,
/// wherever the numbers wrap around, and not here already. Before the first packet every one is.
pub proof fn law_which_packets_are_taken_in(reorder: AudioReorder, distance: int)
    requires
        reorder.expected is Some,
        0 <= distance < 65536,
    ensures
        ({
            let sequence = ((reorder.expected->Some_0 + distance) % 65536) as u16;
            reorder.admits(sequence) <==> distance < 32768 && forall|i: int|
                0 <= i < reorder.queued@.len() ==> (#[trigger] reorder.queued@[i]).0.sequence_number
                    != sequence
        }),
{
}

/// The first packet is taken in.
pub proof fn law_first_packet_is_taken_in(reorder: AudioReorder, sequence: u16)
    requires
        reorder.wf(),
        reorder.expected is None,
    ensures
        reorder.admits(sequence),
{
}

/// A packet is passed on exactly if the expected one is here, if 32 packets wait for it, or if the
/// first of those has waited for 30 ms.
pub proof fn law_when_packets_are_passed_on(reorder: AudioReorder, now: u64)
    requires
        reorder.wf(),
    ensures
        reorder.releases(now) <==> {
            &&& reorder.queued@.len() > 0
            &&& {
                ||| reorder.queued@.len() >= 32
                ||| now - reorder.queued@[0].1 >= 30 * 1_000_000
                ||| exists|i: int|
                    0 <= i < reorder.queued@.len() && Some(
                        (#[trigger] reorder.queued@[i]).0.sequence_number,
                    ) == reorder.expected
            }
        },
{
    if reorder.queued@.len() > 0 {
        let expected = reorder.expected->Some_0;
        if exists|i: int|
            0 <= i < reorder.queued@.len() && Some((#[trigger] reorder.queued@[i]).0.sequence_number)
                == reorder.expected {
            let i = choose|i: int|
                0 <= i < reorder.queued@.len() && Some(
                    (#[trigger] reorder.queued@[i]).0.sequence_number,
                ) == reorder.expected;
            assert(reorder.queued@[i].0.sequence_number == expected);
            assert(reorder.arrived(expected));
        }
    }
}

/// Of the packets that wait, the one that is passed on comes first: counted from the expected number
/// upwards, wherever the numbers wrap around, no other one that waits comes before it. And if the packet
/// before it was the last that was passed on, it is one to 32768 numbers after that.
pub proof fn law_next_packet_comes_first(
    reorder: AudioReorder,
    last: u16,
    i: int,
    k: int,
)
    requires
        reorder.wf(),
        reorder.expected == Some(((last + 1) % 65536) as u16),
        is_nearest(reorder.queued@, reorder.expected->Some_0, i),
        0 <= k < reorder.queued@.len(),
    ensures
        ({
            let passed = reorder.queued@[i].0.sequence_number;
            let other = reorder.queued@[k].0.sequence_number;
            &&& 1 <= (passed - last) % 65536 <= 32768
            &&& k != i ==> (passed - last) % 65536 < (other - last) % 65536
        }),
{
    let expected = reorder.expected->Some_0;
    assert(lead(reorder.queued@[i], expected) <= lead(reorder.queued@[k], expected));
    assert(lead(reorder.queued@[i], expected) <= 32767);
    assert(lead(reorder.queued@[k], expected) <= 32767);
    if i < k {
        assert(reorder.queued@[i].0.sequence_number != reorder.queued@[k].0.sequence_number);
    } else if k < i {
        assert(reorder.queued@[k].0.sequence_number != reorder.queued@[i].0.sequence_number);
    }
}

} // verus!
