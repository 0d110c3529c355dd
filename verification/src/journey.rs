//! The way of a datagram over an impaired link: when it is handed out, and what it shares the link
//! with.
use crate::double;
use crate::link::Phase;
use crate::shaper;
use crate::shaper::{Datagram, Event, Kind, LinkModel, CLOCK_LIMIT};
use vstd::prelude::*;

verus! {

/// When something happens.
pub open spec fn time_of(event: Event) -> u64 {
    match event {
        Event::Arrival(_, _, now) => now,
        Event::Look(_, now) => now,
        Event::Flush(now) => now,
    }
}

/// Whether things happen one after the other, at times that the link's clock can reach, and whether
/// the delays and the jitter are those that the description of a link may ask for.
pub open spec fn in_course(events: Seq<Event>) -> bool {
    &&& forall|i: int, j: int|
        0 <= i <= j < events.len() ==> time_of(#[trigger] events[i]) <= time_of(
            #[trigger] events[j],
        )
    &&& forall|i: int| 0 <= i < events.len() ==> time_of(#[trigger] events[i]) <= CLOCK_LIMIT
    &&& forall|i: int|
        0 <= i < events.len() ==> (#[trigger] events[i] matches Event::Arrival(_, phase, _)
            ==> phase.delay_ms <= 2000 && phase.jitter_ms <= 2000)
}

/// Whether a time, in nanoseconds, is a link's delay give or take its jitter.
pub open spec fn is_delay(phase: Phase, time: int) -> bool {
    &&& 0 <= time
    &&& (phase.delay_ms - phase.jitter_ms) * 1_000_000 <= time
    &&& time <= (phase.delay_ms + phase.jitter_ms) * 1_000_000
}

/// Whether a time, in nanoseconds, is what so many bytes take at a rate in kilobits per second, to a
/// nanosecond; without a rate they take no time.
pub open spec fn is_line_time(size: int, kbps: u32, time: int) -> bool {
    if kbps == 0 {
        time == 0
    } else {
        &&& 0 <= time
        &&& (time - 1) * (kbps * 1_000) <= size * 8 * 1_000_000_000
        &&& size * 8 * 1_000_000_000 <= (time + 1) * (kbps * 1_000)
    }
}

/// Whether a datagram is one that came in with an event.
pub open spec fn came_with(packet: Datagram, event: Event) -> bool {
    event matches Event::Arrival(data, _, now) && packet.data == data && packet.arrived == now
        && packet.kind == shaper::kind_of(data)
}

/// Whether a datagram came in with one event and was put on the line at another, and reaches the
/// other end when it has been through the line and has had its delay.
pub open spec fn travels(
    packet: Datagram,
    arrival: Event,
    look: Event,
    line: int,
    delay: int,
) -> bool {
    &&& came_with(packet, arrival)
    &&& arrival matches Event::Arrival(_, phase, _) && is_delay(phase, delay)
    &&& look matches Event::Look(phase, now) && is_line_time(
        packet.data.len() as int + 28,
        phase.kbps,
        line,
    ) && packet.due == now + line + delay
}

/// Whether a datagram waits in a queue since one of the events.
spec fn waits(packet: Datagram, events: Seq<Event>) -> bool {
    exists|k: int|
        #![trigger events[k]]
        0 <= k < events.len() && came_with(packet, events[k]) && (
        events[k] matches Event::Arrival(_, phase, now) && is_delay(phase, packet.due - now))
}

/// Whether a datagram is on its way since one of the events.
pub open spec fn flies(packet: Datagram, events: Seq<Event>) -> bool {
    exists|k: int, l: int, line: int, delay: int|
        0 <= k < l < events.len() && #[trigger] travels(packet, events[k], events[l], line, delay)
}

spec fn each_waits(list: Seq<Datagram>, events: Seq<Event>) -> bool {
    forall|i: int| 0 <= i < list.len() ==> waits(#[trigger] list[i], events)
}

spec fn each_flies(list: Seq<Datagram>, events: Seq<Event>) -> bool {
    forall|i: int| 0 <= i < list.len() ==> flies(#[trigger] list[i], events)
}

spec fn explained(link: LinkModel, events: Seq<Event>) -> bool {
    &&& each_waits(link.high, events)
    &&& each_waits(link.low, events)
    &&& each_flies(link.flying, events)
}

proof fn lemma_waits_on(packet: Datagram, events: Seq<Event>, event: Event)
    requires
        waits(packet, events),
    ensures
        waits(packet, events.push(event)),
{
    let k = choose|k: int|
        #![trigger events[k]]
        0 <= k < events.len() && came_with(packet, events[k]) && (
        events[k] matches Event::Arrival(_, phase, now) && is_delay(phase, packet.due - now));
    assert(events.push(event)[k] == events[k]);
}

proof fn lemma_flies_on(packet: Datagram, events: Seq<Event>, event: Event)
    requires
        flies(packet, events),
    ensures
        flies(packet, events.push(event)),
{
    let (k, l, line, delay) = choose|k: int, l: int, line: int, delay: int|
        0 <= k < l < events.len() && #[trigger] travels(packet, events[k], events[l], line, delay);
    let more = events.push(event);
    assert(more[k] == events[k] && more[l] == events[l]);
    assert(travels(packet, more[k], more[l], line, delay));
}

proof fn lemma_explained_on(link: LinkModel, events: Seq<Event>, event: Event)
    requires
        explained(link, events),
    ensures
        explained(link, events.push(event)),
{
    assert forall|i: int| 0 <= i < link.high.len() implies waits(
        #[trigger] link.high[i],
        events.push(event),
    ) by {
        lemma_waits_on(link.high[i], events, event);
    }
    assert forall|i: int| 0 <= i < link.low.len() implies waits(
        #[trigger] link.low[i],
        events.push(event),
    ) by {
        lemma_waits_on(link.low[i], events, event);
    }
    assert forall|i: int| 0 <= i < link.flying.len() implies flies(
        #[trigger] link.flying[i],
        events.push(event),
    ) by {
        lemma_flies_on(link.flying[i], events, event);
    }
}

/// The time on the line is what the bytes take at the rate, to a nanosecond.
pub proof fn law_line_time_follows_rate(size: int, kbps: u32)
    requires
        28 <= size <= 1_048_576,
    ensures
        is_line_time(size, kbps, shaper::serialization(size, kbps)),
{
    if kbps > 0 {
        let num = (8 * size) as nat;
        let den = (1000 * kbps) as nat;
        double::lemma_nanoseconds(num, den);
        let time = shaper::serialization(size, kbps);
        let exact = 1_000_000_000 * num as int;
        assert(exact <= 0x20_0000_0000_0000 * den);
        assert(time * den - den == (time - 1) * den && time * den + den == (time + 1) * den)
            by (nonlinear_arith);
    }
}

/// More bytes take longer, or as long, and a higher rate takes less time, or as much, give or take
/// two nanoseconds.
pub proof fn law_line_time_grows(size: int, more: int, kbps: u32, faster: u32)
    requires
        28 <= size <= more <= 1_048_576,
        0 < kbps <= faster,
    ensures
        shaper::serialization(size, faster) <= shaper::serialization(more, kbps) + 2,
{
    law_line_time_follows_rate(size, faster);
    law_line_time_follows_rate(more, kbps);
    let a = shaper::serialization(size, faster);
    let b = shaper::serialization(more, kbps);
    let f = faster * 1000;
    let k = kbps * 1000;
    assert((a - 1) * k <= (a - 1) * f || a < 1) by (nonlinear_arith)
        requires
            k <= f,
    ;
    if a > b + 2 {
        assert((a - 1) * k > (b + 1) * k) by (nonlinear_arith)
            requires
                a - 1 > b + 1,
                k > 0,
        ;
    }
}

/// The delay of a datagram is the link's delay and a part of its jitter: all of it less for the
/// lowest draw, none for the middle one, all of it more for the highest, and in proportion between
/// them, to a nanosecond. No delay is negative.
pub proof fn law_delay_follows_draw(delay_ms: u32, jitter_ms: u32, draw: u64)
    requires
        draw < 0x20_0000_0000_0000,
        delay_ms <= 2000,
        jitter_ms <= 2000,
    ensures
        ({
            let one = 0x20_0000_0000_0000int;
            let exact = delay_ms * 1_000_000 * one + jitter_ms * 1_000_000 * (2 * draw - one);
            let delay = shaper::propagation(delay_ms, jitter_ms, draw);
            &&& exact <= 0 ==> 0 <= delay <= 1
            &&& exact > 0 ==> (delay - 1) * one <= exact <= (delay + 1) * one
        }),
{
    shaper::lemma_jitter_part(jitter_ms, draw);
    let one = 0x20_0000_0000_0000int;
    let half = 2 * draw - one;
    let part = half * jitter_ms;
    assert(-half * jitter_ms == -part) by (nonlinear_arith)
        requires
            part == half * jitter_ms,
    ;
    assert(jitter_ms * 1_000_000 * half == part * 1_000_000) by (nonlinear_arith)
        requires
            part == half * jitter_ms,
    ;
    if half < 0 {
        double::lemma_rounded((-part) as nat);
    } else {
        double::lemma_rounded(part as nat);
    }
    let jitter = shaper::jitter_part(jitter_ms, draw);
    assert(-2000 <= jitter - part <= 2000);
    let sum = delay_ms * one + jitter;
    if sum > 0 {
        let whole = double::rounded(sum as nat);
        let den = 1000nat * 0x20_0000_0000_0000;
        double::lemma_rounded(sum as nat);
        double::lemma_nanoseconds(whole, den);
    }
}

/// What leaves a queue is on its way from then on.
proof fn lemma_launch_explained(
    link: LinkModel,
    events: Seq<Event>,
    phase: Phase,
    now: u64,
)
    requires
        explained(link, events),
        in_course(events),
        events.len() > 0,
        events.last() == Event::Look(phase, now),
        link.measured(),
        link.bytes <= 1_048_576,
        link.high.len() + link.low.len() > 0,
    ensures
        explained(link.launching(phase.kbps, now), events),
        link.launching(phase.kbps, now).measured(),
        link.launching(phase.kbps, now).bytes == link.bytes,
{
    let after = link.launching(phase.kbps, now);
    let packet = if link.high.len() > 0 {
        link.high[0]
    } else {
        link.low[0]
    };
    shaper::lemma_sizes(link.high);
    shaper::lemma_sizes(link.low);
    shaper::lemma_sizes(link.flying);
    if link.high.len() > 0 {
        shaper::lemma_sizes_first(link.high);
    } else {
        shaper::lemma_sizes_first(link.low);
    }
    shaper::lemma_sizes_push(link.flying, after.flying.last());
    assert(waits(packet, events));
    let k = choose|k: int|
        #![trigger events[k]]
        0 <= k < events.len() && came_with(packet, events[k]) && (
        events[k] matches Event::Arrival(_, phase, now) && is_delay(phase, packet.due - now));
    let l = events.len() - 1;
    let line = shaper::serialization(packet.size(), phase.kbps);
    let delay = packet.due - packet.arrived;
    law_line_time_follows_rate(packet.size(), phase.kbps);
    shaper::lemma_serialization(packet.size(), phase.kbps);
    assert(time_of(events[l]) <= CLOCK_LIMIT);
    let moved = after.flying.last();
    assert(k != l);
    assert(moved.due == now + line + delay);
    assert(travels(moved, events[k], events[l], line, delay));
    assert(flies(moved, events));
    assert forall|i: int| 0 <= i < after.high.len() implies waits(
        #[trigger] after.high[i],
        events,
    ) by {
        if link.high.len() > 0 {
            assert(after.high[i] == link.high[i + 1]);
        }
    }
    assert forall|i: int| 0 <= i < after.low.len() implies waits(
        #[trigger] after.low[i],
        events,
    ) by {
        if link.high.len() > 0 {
            assert(after.low[i] == link.low[i]);
        } else {
            assert(after.low[i] == link.low[i + 1]);
        }
    }
    assert forall|i: int| 0 <= i < after.flying.len() implies flies(
        #[trigger] after.flying[i],
        events,
    ) by {
        if i < link.flying.len() {
            assert(after.flying[i] == link.flying[i]);
        }
    }
}

proof fn lemma_transmit_explained(
    link: LinkModel,
    events: Seq<Event>,
    phase: Phase,
    now: u64,
)
    requires
        explained(link, events),
        in_course(events),
        events.len() > 0,
        events.last() == Event::Look(phase, now),
        link.measured(),
        link.bytes <= 1_048_576,
    ensures
        explained(link.transmitted(phase.kbps, now), events),
    decreases link.high.len() + link.low.len(),
{
    if link.free <= now && link.high.len() + link.low.len() > 0 {
        lemma_launch_explained(link, events, phase, now);
        if phase.kbps == 0 {
            lemma_transmit_explained(link.launching(phase.kbps, now), events, phase, now);
        }
    }
}

/// What a look makes of a link that is explained.
proof fn lemma_look_explained(
    link: LinkModel,
    events: Seq<Event>,
    phase: Phase,
    queue_ms: u64,
    now: u64,
)
    requires
        explained(link, events),
        in_course(events),
        events.len() > 0,
        events.last() == Event::Look(phase, now),
        link.measured(),
        link.bytes <= 1_048_576,
    ensures
        explained(link.pumped(phase, queue_ms, now), events),
        each_flies(link.delivered(phase, queue_ms, now), events),
        forall|i: int|
            0 <= i < link.delivered(phase, queue_ms, now).len() ==> (#[trigger] link.delivered(
                phase,
                queue_ms,
                now,
            )[i]).due <= now,
        forall|i: int|
            0 <= i < link.pumped(phase, queue_ms, now).flying.len() ==> (#[trigger] link.pumped(
                phase,
                queue_ms,
                now,
            ).flying[i]).due > now,
{
    if !phase.outage {
        let fresh = link.freshened(now, queue_ms);
        shaper::lemma_fresh(link.high, now, queue_ms);
        shaper::lemma_fresh(link.low, now, queue_ms);
        assert forall|i: int| 0 <= i < fresh.high.len() implies waits(
            #[trigger] fresh.high[i],
            events,
        ) by {
            assert(fresh.high[i] == link.high[link.high.len() - fresh.high.len() + i]);
        }
        assert forall|i: int| 0 <= i < fresh.low.len() implies waits(
            #[trigger] fresh.low[i],
            events,
        ) by {
            assert(fresh.low[i] == link.low[link.low.len() - fresh.low.len() + i]);
        }
        lemma_transmit_explained(fresh, events, phase, now);
        let moved = link.advanced(phase, queue_ms, now);
        lemma_kept_are_members(moved.flying, shaper::due_by(now));
        lemma_kept_are_members(moved.flying, shaper::due_after(now));
        let out = moved.flying.filter(shaper::due_by(now));
        let rest = moved.flying.filter(shaper::due_after(now));
        assert forall|i: int| 0 <= i < out.len() implies flies(#[trigger] out[i], events) && out[i].due
            <= now by {
            assert(moved.flying.contains(out[i]));
        }
        assert forall|i: int| 0 <= i < rest.len() implies flies(#[trigger] rest[i], events)
            && rest[i].due > now by {
            assert(moved.flying.contains(rest[i]));
        }
    }
}

/// What a filter keeps was there before, and is wanted.
proof fn lemma_kept_are_members(list: Seq<Datagram>, wanted: spec_fn(Datagram) -> bool)
    ensures
        forall|i: int|
            0 <= i < list.filter(wanted).len() ==> list.contains(#[trigger] list.filter(wanted)[i])
                && wanted(list.filter(wanted)[i]),
    decreases list.len(),
{
    reveal(Seq::filter);
    if list.len() > 0 {
        let front = list.drop_last();
        lemma_kept_are_members(front, wanted);
        assert forall|i: int| 0 <= i < list.filter(wanted).len() implies list.contains(
            #[trigger] list.filter(wanted)[i],
        ) && wanted(list.filter(wanted)[i]) by {
            if i < front.filter(wanted).len() {
                let packet = front.filter(wanted)[i];
                assert(front.contains(packet));
                let k = choose|k: int| 0 <= k < front.len() && front[k] == packet;
                assert(list[k] == packet);
            } else {
                assert(list[list.len() - 1] == list.last());
            }
        }
    }
}

/// What a datagram that comes in makes of a link that is explained.
proof fn lemma_arrival_explained(
    link: LinkModel,
    events: Seq<Event>,
    data: Seq<u8>,
    phase: Phase,
    queue_bytes: usize,
    now: u64,
)
    requires
        explained(link, events),
        in_course(events),
        events.len() > 0,
        events.last() == Event::Arrival(data, phase, now),
        link.measured(),
    ensures
        explained(link.enqueued(data, phase, queue_bytes, now), events),
{
    let size = data.len() as int + 28;
    let kind = shaper::kind_of(data);
    let rng = shaper::next_random(link.rng);
    let drawn = LinkModel { rng, counts: link.counts.receiving(size), ..link };
    shaper::lemma_evicting(drawn, size, queue_bytes as int);
    let cleared = if kind == Kind::Video {
        drawn
    } else {
        drawn.evicting(size, queue_bytes as int)
    };
    assert forall|i: int| 0 <= i < cleared.low.len() implies waits(
        #[trigger] cleared.low[i],
        events,
    ) by {
        assert(cleared.low[i] == link.low[i]);
    }
    let last = shaper::next_random(rng);
    shaper::lemma_random(last);
    let delay = shaper::propagation(phase.delay_ms, phase.jitter_ms, shaper::draw_of(last));
    let l = events.len() - 1;
    assert(time_of(events[l]) <= CLOCK_LIMIT);
    assert(phase.delay_ms <= 2000 && phase.jitter_ms <= 2000) by {
        assert(events[l] == events.last());
    }
    shaper::law_delay_stays_within_jitter(
        phase.delay_ms,
        phase.jitter_ms,
        shaper::draw_of(last),
    );
    let packet = Datagram { data, kind, arrived: now, due: (now + delay) as u64 };
    assert(waits(packet, events)) by {
        assert(came_with(packet, events[l]));
    }
    let after = link.enqueued(data, phase, queue_bytes, now);
    assert forall|i: int| 0 <= i < after.high.len() implies waits(
        #[trigger] after.high[i],
        events,
    ) by {
        if i < link.high.len() {
            assert(after.high[i] == link.high[i]);
        } else {
            assert(after.high[i] == packet);
        }
    }
    assert forall|i: int| 0 <= i < after.low.len() implies waits(
        #[trigger] after.low[i],
        events,
    ) by {
        if i < cleared.low.len() {
            assert(after.low[i] == link.low[i]);
        } else if after.low != link.low {
            assert(after.low[i] == packet);
        }
    }
}

/// Whatever has happened to a new link explains what is on it.
proof fn lemma_explained(
    seed: u64,
    start: u64,
    events: Seq<Event>,
    queue_bytes: usize,
    queue_ms: u64,
)
    requires
        in_course(events),
        queue_bytes <= 1_048_576,
    ensures
        explained(
            LinkModel::fresh(seed, start).after_all(events, queue_bytes, queue_ms),
            events,
        ),
    decreases events.len(),
{
    if events.len() > 0 {
        let front = events.drop_last();
        let last = events.last();
        lemma_course_before(events);
        lemma_explained(seed, start, front, queue_bytes, queue_ms);
        let link = LinkModel::fresh(seed, start).after_all(front, queue_bytes, queue_ms);
        shaper::law_queue_is_bounded(seed, start, front, queue_bytes, queue_ms);
        lemma_explained_on(link, front, last);
        assert(front.push(last) =~= events);
        match last {
            Event::Arrival(data, phase, now) => {
                lemma_arrival_explained(link, events, data, phase, queue_bytes, now);
            },
            Event::Look(phase, now) => {
                lemma_look_explained(link, events, phase, queue_ms, now);
            },
            Event::Flush(now) => {},
        }
    }
}

proof fn lemma_course_before(events: Seq<Event>)
    requires
        in_course(events),
        events.len() > 0,
    ensures
        in_course(events.drop_last()),
{
    let front = events.drop_last();
    assert forall|i: int| 0 <= i < front.len() implies #[trigger] front[i] == events[i] by {}
}

/// Nothing is handed out early. Whatever has happened to a new link, a datagram that a look hands out
/// came in before; it was put on the line at a look after that, or at this one; and since that look
/// the time has passed that its bytes take at the rate then, and the delay of the phase in which it
/// came in, give or take that phase's jitter.
pub proof fn law_nothing_is_early(
    seed: u64,
    start: u64,
    events: Seq<Event>,
    queue_bytes: usize,
    queue_ms: u64,
    phase: Phase,
    now: u64,
    i: int,
)
    requires
        in_course(events),
        queue_bytes <= 1_048_576,
        events.len() > 0,
        events.last() == Event::Look(phase, now),
        0 <= i < LinkModel::fresh(seed, start).after_all(
            events.drop_last(),
            queue_bytes,
            queue_ms,
        ).delivered(phase, queue_ms, now).len(),
    ensures
        ({
            let packet = LinkModel::fresh(seed, start).after_all(
                events.drop_last(),
                queue_bytes,
                queue_ms,
            ).delivered(phase, queue_ms, now)[i];
            exists|k: int, l: int, line: int, delay: int|
                0 <= k < l < events.len() && #[trigger] travels(
                    packet,
                    events[k],
                    events[l],
                    line,
                    delay,
                ) && time_of(events[k]) <= time_of(events[l]) && time_of(events[l]) + line + delay
                    <= now
        }),
{
    let front = events.drop_last();
    let link = LinkModel::fresh(seed, start).after_all(front, queue_bytes, queue_ms);
    lemma_course_before(events);
    lemma_explained(seed, start, front, queue_bytes, queue_ms);
    shaper::law_queue_is_bounded(seed, start, front, queue_bytes, queue_ms);
    lemma_explained_on(link, front, events.last());
    assert(front.push(events.last()) =~= events);
    lemma_look_explained(link, events, phase, queue_ms, now);
    let packet = link.delivered(phase, queue_ms, now)[i];
    assert(flies(packet, events));
}

/// Nothing stays on its way for too long. Whatever has happened to a new link, a datagram that is
/// still on its way after a look was put on the line at a look, and since then the time has not yet
/// passed that its bytes take at the rate then, with the delay of the phase in which it came in, give
/// or take that phase's jitter. So the first look at or after that time hands it out, unless an outage
/// drops it before.
pub proof fn law_nothing_is_overdue(
    seed: u64,
    start: u64,
    events: Seq<Event>,
    queue_bytes: usize,
    queue_ms: u64,
    phase: Phase,
    now: u64,
    i: int,
)
    requires
        in_course(events),
        queue_bytes <= 1_048_576,
        events.len() > 0,
        events.last() == Event::Look(phase, now),
        0 <= i < LinkModel::fresh(seed, start).after_all(
            events,
            queue_bytes,
            queue_ms,
        ).flying.len(),
    ensures
        ({
            let packet = LinkModel::fresh(seed, start).after_all(
                events,
                queue_bytes,
                queue_ms,
            ).flying[i];
            exists|k: int, l: int, line: int, delay: int|
                0 <= k < l < events.len() && #[trigger] travels(
                    packet,
                    events[k],
                    events[l],
                    line,
                    delay,
                ) && time_of(events[k]) <= time_of(events[l]) && now < time_of(events[l]) + line
                    + delay
        }),
{
    let front = events.drop_last();
    let link = LinkModel::fresh(seed, start).after_all(front, queue_bytes, queue_ms);
    lemma_course_before(events);
    lemma_explained(seed, start, front, queue_bytes, queue_ms);
    shaper::law_queue_is_bounded(seed, start, front, queue_bytes, queue_ms);
    lemma_explained_on(link, front, events.last());
    assert(front.push(events.last()) =~= events);
    lemma_look_explained(link, events, phase, queue_ms, now);
    let packet = link.pumped(phase, queue_ms, now).flying[i];
    assert(flies(packet, events));
}

/// Whether a datagram that comes in now is lost on the way.
pub open spec fn is_lost(link: LinkModel, phase: Phase) -> bool {
    double::draws_below(shaper::draw_of(shaper::next_random(link.rng)), phase.loss_percent)
}

/// A datagram that is not lost is queued exactly if it finds room, and then as the last of its queue.
/// A picture finds room if with it the link holds four fifths of the queue's bytes at most. Anything
/// else finds room if it would without the pictures that wait; of those the newest make room, and no
/// more of them than needed.
pub proof fn law_arrival_finds_room(
    link: LinkModel,
    data: Seq<u8>,
    phase: Phase,
    queue_bytes: usize,
    now: u64,
)
    requires
        link.measured(),
        !phase.outage,
        !is_lost(link, phase),
    ensures
        ({
            let after = link.enqueued(data, phase, queue_bytes, now);
            let size = data.len() as int + 28;
            let fixed = shaper::sizes(link.high) + shaper::sizes(link.flying);
            let kept = after.low.len() as int;
            if shaper::kind_of(data) == Kind::Video {
                &&& after.high == link.high
                &&& link.bytes + size <= queue_bytes * 4 / 5 ==> {
                    &&& after.low.len() == link.low.len() + 1
                    &&& after.low.drop_last() == link.low
                    &&& after.low.last().data == data
                    &&& after.low.last().arrived == now
                }
                &&& link.bytes + size > queue_bytes * 4 / 5 ==> after.low == link.low
            } else {
                &&& fixed + size <= queue_bytes ==> {
                    &&& after.high.len() == link.high.len() + 1
                    &&& after.high.drop_last() == link.high
                    &&& after.high.last().data == data
                    &&& after.high.last().arrived == now
                    &&& fixed + shaper::sizes(link.low.take(kept)) + size <= queue_bytes
                }
                &&& fixed + size > queue_bytes ==> after.high == link.high && kept == 0
                &&& kept <= link.low.len() && after.low == link.low.take(kept)
                &&& kept < link.low.len() ==> fixed + shaper::sizes(link.low.take(kept + 1)) + size
                    > queue_bytes
            }
        }),
{
    let size = data.len() as int + 28;
    let rng = shaper::next_random(link.rng);
    let drawn = LinkModel { rng, counts: link.counts.receiving(size), ..link };
    shaper::lemma_evicting(drawn, size, queue_bytes as int);
    shaper::lemma_sizes(link.high);
    shaper::lemma_sizes(link.low);
    shaper::lemma_sizes(link.flying);
    let after = link.enqueued(data, phase, queue_bytes, now);
    if shaper::kind_of(data) == Kind::Video {
        if link.bytes + size <= queue_bytes * 4 / 5 {
            assert(after.low.drop_last() =~= link.low);
        }
    } else {
        let cleared = drawn.evicting(size, queue_bytes as int);
        let kept = cleared.low.len() as int;
        shaper::lemma_sizes(cleared.low);
        assert(kept == 0 ==> cleared.low =~= seq![]);
        if kept < link.low.len() {
            assert(link.low.take(kept + 1).drop_last() =~= link.low.take(kept));
        }
        if fixed_bytes(link) + size <= queue_bytes {
            assert(after.high.drop_last() =~= link.high);
        }
    }
}

spec fn fixed_bytes(link: LinkModel) -> int {
    shaper::sizes(link.high) + shaper::sizes(link.flying)
}

/// Every datagram that comes in is counted once, with its 28 bytes of headers, and the reason for
/// which it is dropped, if it is, is counted: an outage, a loss, or want of room. During an outage and
/// at a loss nothing else happens.
pub proof fn law_arrival_is_counted(
    link: LinkModel,
    data: Seq<u8>,
    phase: Phase,
    queue_bytes: usize,
    now: u64,
)
    requires
        link.balanced(),
        link.counts.received_packets < u64::MAX,
        link.counts.received_ip_bytes + data.len() + 28 <= u64::MAX,
    ensures
        ({
            let after = link.enqueued(data, phase, queue_bytes, now);
            let old = link.counts;
            let new = after.counts;
            let lost = !phase.outage && is_lost(link, phase);
            &&& new.received_packets == old.received_packets + 1
            &&& new.received_ip_bytes == old.received_ip_bytes + data.len() + 28
            &&& new.outage_drops == old.outage_drops + (if phase.outage {
                1int
            } else {
                0
            })
            &&& new.loss_drops == old.loss_drops + (if lost {
                1int
            } else {
                0
            })
            &&& new.queue_drops == old.queue_drops + (if phase.outage || lost {
                0int
            } else {
                link.stored() + 1 - after.stored()
            })
            &&& new.stale_drops == old.stale_drops
            &&& new.delivered_packets == old.delivered_packets
            &&& new.unexpected_sources == old.unexpected_sources
            &&& phase.outage || lost ==> after.high == link.high && after.low == link.low
                && after.flying == link.flying && after.bytes == link.bytes
        }),
{
    let size = data.len() as int + 28;
    let rng = shaper::next_random(link.rng);
    let drawn = LinkModel { rng, counts: link.counts.receiving(size), ..link };
    shaper::lemma_sizes(link.high);
    shaper::lemma_sizes(link.low);
    shaper::lemma_sizes(link.flying);
    shaper::lemma_evicting(drawn, size, queue_bytes as int);
}

/// How many datagrams of a list are of a kind.
pub open spec fn of_kind(list: Seq<Datagram>, kind: Kind) -> nat
    decreases list.len(),
{
    if list.len() == 0 {
        0
    } else {
        of_kind(list.drop_last(), kind) + (if list.last().kind == kind {
            1nat
        } else {
            0
        })
    }
}

proof fn lemma_delivering_kinds(counts: shaper::Counts, list: Seq<Datagram>)
    requires
        counts.delivered_packets + list.len() <= u64::MAX,
        counts.delivered_ip_bytes + shaper::sizes(list) <= u64::MAX,
        counts.delivered_packets == counts.audio_delivered + counts.video_delivered
            + counts.control_delivered,
    ensures
        ({
            let after = counts.delivering_all(list);
            &&& after.audio_delivered == counts.audio_delivered + of_kind(list, Kind::Audio)
            &&& after.video_delivered == counts.video_delivered + of_kind(list, Kind::Video)
            &&& after.control_delivered == counts.control_delivered + of_kind(list, Kind::Control)
            &&& after.delivered_packets == counts.delivered_packets + list.len()
            &&& after.delivered_ip_bytes == counts.delivered_ip_bytes + shaper::sizes(list)
            &&& after.delivered_packets == after.audio_delivered + after.video_delivered
                + after.control_delivered
        }),
    decreases list.len(),
{
    shaper::lemma_sizes(list);
    if list.len() > 0 {
        shaper::lemma_sizes(list.drop_last());
        lemma_delivering_kinds(counts, list.drop_last());
    }
}

/// What a look hands out is counted by its kind and with its bytes; what it drops is counted as
/// stale, or, in an outage, all that was there.
pub proof fn law_look_is_counted(link: LinkModel, phase: Phase, queue_ms: u64, now: u64)
    requires
        link.balanced(),
    ensures
        ({
            let after = link.pumped(phase, queue_ms, now);
            let out = link.delivered(phase, queue_ms, now);
            let old = link.counts;
            let new = after.counts;
            &&& new.audio_delivered == old.audio_delivered + of_kind(out, Kind::Audio)
            &&& new.video_delivered == old.video_delivered + of_kind(out, Kind::Video)
            &&& new.control_delivered == old.control_delivered + of_kind(out, Kind::Control)
            &&& new.delivered_ip_bytes == old.delivered_ip_bytes + shaper::sizes(out)
            &&& new.received_packets == old.received_packets
            &&& new.received_ip_bytes == old.received_ip_bytes
            &&& new.loss_drops == old.loss_drops
            &&& new.queue_drops == old.queue_drops
            &&& new.unexpected_sources == old.unexpected_sources
            &&& phase.outage ==> {
                &&& out.len() == 0
                &&& after.stored() == 0
                &&& new.outage_drops == old.outage_drops + link.stored()
                &&& new.stale_drops == old.stale_drops
            }
            &&& !phase.outage ==> {
                &&& new.outage_drops == old.outage_drops
                &&& new.stale_drops == old.stale_drops + link.stored() - after.stored() - out.len()
            }
        }),
{
    shaper::lemma_pumped_accounts(link, phase, queue_ms, now);
    shaper::lemma_sizes(link.high);
    shaper::lemma_sizes(link.low);
    shaper::lemma_sizes(link.flying);
    if phase.outage {
        assert(shaper::sizes(seq![]) == 0);
    } else {
        shaper::lemma_fresh(link.high, now, queue_ms);
        shaper::lemma_fresh(link.low, now, queue_ms);
        let fresh = link.freshened(now, queue_ms);
        shaper::lemma_sizes(fresh.high);
        shaper::lemma_sizes(fresh.low);
        shaper::lemma_transmitted_counts(fresh, phase.kbps, now);
        let moved = link.advanced(phase, queue_ms, now);
        let out = moved.arrivals(now);
        shaper::lemma_sizes(moved.high);
        shaper::lemma_sizes(moved.low);
        shaper::lemma_sizes(moved.flying);
        shaper::lemma_sizes(out);
        shaper::lemma_arrivals(moved.flying, now, moved.flying.len() as int);
        shaper::lemma_sizes(moved.flying.filter(shaper::due_after(now)));
        assert(fresh.balanced());
        assert(moved.balanced());
        lemma_delivering_kinds(moved.counts, out);
        lemma_delivering_rest(moved.counts, out);
    }
}

/// Deliveries leave the other counts as they are.
proof fn lemma_delivering_rest(counts: shaper::Counts, list: Seq<Datagram>)
    ensures
        ({
            let after = counts.delivering_all(list);
            &&& after.received_packets == counts.received_packets
            &&& after.received_ip_bytes == counts.received_ip_bytes
            &&& after.loss_drops == counts.loss_drops
            &&& after.outage_drops == counts.outage_drops
            &&& after.queue_drops == counts.queue_drops
            &&& after.stale_drops == counts.stale_drops
            &&& after.unexpected_sources == counts.unexpected_sources
        }),
    decreases list.len(),
{
    if list.len() > 0 {
        lemma_delivering_rest(counts, list.drop_last());
    }
}

/// Whether the datagrams of a list came in one after the other.
pub open spec fn by_age(list: Seq<Datagram>) -> bool {
    forall|i: int, j: int|
        0 <= i <= j < list.len() ==> (#[trigger] list[i]).arrived <= (#[trigger] list[j]).arrived
}

/// A look drops exactly those datagrams from the queues that have waited for longer than they may,
/// where the queues are in the order of arrival.
pub proof fn law_stale_datagrams_are_dropped(
    list: Seq<Datagram>,
    now: u64,
    queue_ms: u64,
    i: int,
)
    requires
        by_age(list),
        0 <= i < list.len(),
    ensures
        ({
            let rest = shaper::fresh(list, now, queue_ms);
            let dropped = list.len() - rest.len();
            &&& rest == list.skip(dropped)
            &&& i < dropped <==> now - list[i].arrived > queue_ms * 1_000_000
        }),
    decreases list.len(),
{
    shaper::lemma_fresh(list, now, queue_ms);
    let front = list[0];
    assert(front.arrived <= list[i].arrived);
    if now - front.arrived > queue_ms * 1_000_000 {
        let rest = list.drop_first();
        assert forall|a: int, b: int| 0 <= a <= b < rest.len() implies (#[trigger] rest[a]).arrived
            <= (#[trigger] rest[b]).arrived by {
            assert(rest[a] == list[a + 1] && rest[b] == list[b + 1]);
        }
        if i > 0 {
            law_stale_datagrams_are_dropped(rest, now, queue_ms, i - 1);
            assert(rest[i - 1] == list[i]);
        } else {
            shaper::lemma_fresh(rest, now, queue_ms);
        }
    }
}

spec fn in_order(link: LinkModel, now: u64) -> bool {
    &&& by_age(link.high)
    &&& by_age(link.low)
    &&& forall|i: int| 0 <= i < link.high.len() ==> (#[trigger] link.high[i]).arrived <= now
    &&& forall|i: int| 0 <= i < link.low.len() ==> (#[trigger] link.low[i]).arrived <= now
}

proof fn lemma_shorter_in_order(list: Seq<Datagram>, start: int, end: int)
    requires
        by_age(list),
        0 <= start <= end <= list.len(),
    ensures
        by_age(list.subrange(start, end)),
{
    let part = list.subrange(start, end);
    assert forall|a: int, b: int| 0 <= a <= b < part.len() implies (#[trigger] part[a]).arrived <= (
    #[trigger] part[b]).arrived by {
        assert(part[a] == list[start + a] && part[b] == list[start + b]);
    }
}

/// Leaving the queues takes datagrams from their fronts.
proof fn lemma_transmitted_queues(link: LinkModel, kbps: u32, now: u64)
    ensures
        ({
            let after = link.transmitted(kbps, now);
            &&& after.high.len() <= link.high.len()
            &&& after.low.len() <= link.low.len()
            &&& after.high == link.high.skip(link.high.len() - after.high.len())
            &&& after.low == link.low.skip(link.low.len() - after.low.len())
        }),
    decreases link.high.len() + link.low.len(),
{
    let after = link.transmitted(kbps, now);
    if link.free > now || link.high.len() + link.low.len() == 0 {
        assert(link.high.skip(0) =~= link.high);
        assert(link.low.skip(0) =~= link.low);
    } else {
        let next = link.launching(kbps, now);
        if kbps == 0 {
            lemma_transmitted_queues(next, kbps, now);
        } else {
            assert(next.high.skip(0) =~= next.high);
            assert(next.low.skip(0) =~= next.low);
        }
        assert(after.high =~= link.high.skip(link.high.len() - after.high.len()));
        assert(after.low =~= link.low.skip(link.low.len() - after.low.len()));
    }
}

proof fn lemma_event_in_order(
    link: LinkModel,
    event: Event,
    queue_bytes: usize,
    queue_ms: u64,
    now: u64,
)
    requires
        in_order(link, now),
        link.measured(),
        now <= time_of(event),
    ensures
        in_order(link.after(event, queue_bytes, queue_ms), time_of(event)),
{
    let after = link.after(event, queue_bytes, queue_ms);
    match event {
        Event::Arrival(data, phase, at) => {
            if !phase.outage && !is_lost(link, phase) {
                law_arrival_finds_room(link, data, phase, queue_bytes, at);
                let kept = after.low.len() as int;
                if shaper::kind_of(data) != Kind::Video {
                    lemma_shorter_in_order(link.low, 0, kept);
                    assert(link.low.subrange(0, kept) =~= link.low.take(kept));
                    if after.high != link.high {
                        assert(after.high =~= link.high.push(after.high.last()));
                    }
                } else if after.low != link.low {
                    assert(after.low =~= link.low.push(after.low.last()));
                }
            }
        },
        Event::Look(phase, at) => {
            if !phase.outage {
                let fresh = link.freshened(at, queue_ms);
                shaper::lemma_fresh(link.high, at, queue_ms);
                shaper::lemma_fresh(link.low, at, queue_ms);
                lemma_transmitted_queues(fresh, phase.kbps, at);
                let high = link.high.len() - after.high.len();
                let low = link.low.len() - after.low.len();
                assert(after.high =~= link.high.subrange(high, link.high.len() as int));
                assert(after.low =~= link.low.subrange(low, link.low.len() as int));
                lemma_shorter_in_order(link.high, high, link.high.len() as int);
                lemma_shorter_in_order(link.low, low, link.low.len() as int);
            }
        },
        Event::Flush(_) => {},
    }
}

proof fn lemma_in_order(
    seed: u64,
    start: u64,
    events: Seq<Event>,
    queue_bytes: usize,
    queue_ms: u64,
    now: u64,
)
    requires
        in_course(events),
        events.len() > 0 ==> time_of(events.last()) <= now,
    ensures
        in_order(LinkModel::fresh(seed, start).after_all(events, queue_bytes, queue_ms), now),
    decreases events.len(),
{
    if events.len() > 0 {
        let front = events.drop_last();
        let at = time_of(events.last());
        lemma_course_before(events);
        if front.len() > 0 {
            assert(front.last() == events[front.len() - 1]);
            assert(time_of(events[front.len() - 1]) <= time_of(events[events.len() - 1]));
        }
        lemma_in_order(seed, start, front, queue_bytes, queue_ms, at);
        shaper::law_queue_is_bounded(seed, start, front, queue_bytes, queue_ms);
        let link = LinkModel::fresh(seed, start).after_all(front, queue_bytes, queue_ms);
        lemma_event_in_order(link, events.last(), queue_bytes, queue_ms, at);
    }
}

/// Nothing waits for too long. Whatever has happened to a new link, after a look its queues hold the
/// datagrams in the order of their arrival, and none that came in longer ago than it may wait.
pub proof fn law_nothing_waits_too_long(
    seed: u64,
    start: u64,
    events: Seq<Event>,
    queue_bytes: usize,
    queue_ms: u64,
    phase: Phase,
    now: u64,
)
    requires
        in_course(events),
        events.len() > 0,
        events.last() == Event::Look(phase, now),
    ensures
        ({
            let link = LinkModel::fresh(seed, start).after_all(events, queue_bytes, queue_ms);
            &&& by_age(link.high)
            &&& by_age(link.low)
            &&& forall|i: int|
                0 <= i < link.high.len() ==> now - (#[trigger] link.high[i]).arrived <= queue_ms
                    * 1_000_000
            &&& forall|i: int|
                0 <= i < link.low.len() ==> now - (#[trigger] link.low[i]).arrived <= queue_ms
                    * 1_000_000
        }),
{
    let front = events.drop_last();
    lemma_course_before(events);
    if front.len() > 0 {
        assert(front.last() == events[front.len() - 1]);
        assert(time_of(events[front.len() - 1]) <= time_of(events[events.len() - 1]));
    }
    lemma_in_order(seed, start, front, queue_bytes, queue_ms, now);
    lemma_in_order(seed, start, events, queue_bytes, queue_ms, now);
    if !phase.outage {
        let link = LinkModel::fresh(seed, start).after_all(front, queue_bytes, queue_ms);
        let fresh = link.freshened(now, queue_ms);
        let after = link.pumped(phase, queue_ms, now);
        shaper::lemma_fresh(link.high, now, queue_ms);
        shaper::lemma_fresh(link.low, now, queue_ms);
        lemma_transmitted_queues(fresh, phase.kbps, now);
        assert forall|i: int| 0 <= i < after.high.len() implies now - (
        #[trigger] after.high[i]).arrived <= queue_ms * 1_000_000 by {
            let k = link.high.len() - after.high.len() + i;
            assert(after.high[i] == link.high[k]);
            law_stale_datagrams_are_dropped(link.high, now, queue_ms, k);
        }
        assert forall|i: int| 0 <= i < after.low.len() implies now - (
        #[trigger] after.low[i]).arrived <= queue_ms * 1_000_000 by {
            let k = link.low.len() - after.low.len() + i;
            assert(after.low[i] == link.low[k]);
            law_stale_datagrams_are_dropped(link.low, now, queue_ms, k);
        }
    }
}

/// The bytes of the datagrams of a list, in their order.
pub open spec fn data_of(list: Seq<Datagram>) -> Seq<Seq<u8>> {
    list.map_values(|packet: Datagram| packet.data)
}

/// While the line is busy nothing leaves. A free line without a rate lets all leave, at once: first
/// what is no picture, then the pictures, each in the order in which they were queued.
pub proof fn law_free_line_lets_all_leave(link: LinkModel, kbps: u32, now: u64)
    ensures
        link.free > now ==> link.transmitted(kbps, now) == link,
        link.free <= now && kbps == 0 ==> {
            let after = link.transmitted(kbps, now);
            &&& after.high.len() == 0
            &&& after.low.len() == 0
            &&& data_of(after.flying) == data_of(link.flying) + data_of(link.high) + data_of(
                link.low,
            )
        },
    decreases link.high.len() + link.low.len(),
{
    if link.free <= now && kbps == 0 {
        let after = link.transmitted(kbps, now);
        if link.high.len() + link.low.len() == 0 {
            assert(data_of(after.flying) =~= data_of(link.flying) + data_of(link.high) + data_of(
                link.low,
            ));
        } else {
            let next = link.launching(kbps, now);
            assert(next.free == now);
            law_free_line_lets_all_leave(next, kbps, now);
            assert(data_of(after.flying) =~= data_of(link.flying) + data_of(link.high) + data_of(
                link.low,
            ));
        }
    }
}

/// Whether a list is part of another, in the same order, at the given places of it.
pub open spec fn is_part(part: Seq<Datagram>, whole: Seq<Datagram>, places: Seq<int>) -> bool {
    &&& places.len() == part.len()
    &&& forall|i: int|
        0 <= i < part.len() ==> 0 <= #[trigger] places[i] < whole.len() && part[i]
            == whole[places[i]]
    &&& forall|i: int, j: int| 0 <= i < j < places.len() ==> #[trigger] places[i] < #[trigger] places[j]
}

proof fn lemma_filter_is_part(list: Seq<Datagram>, wanted: spec_fn(Datagram) -> bool) -> (places:
    Seq<int>)
    ensures
        is_part(list.filter(wanted), list, places),
    decreases list.len(),
{
    reveal(Seq::filter);
    if list.len() == 0 {
        seq![]
    } else {
        let front = list.drop_last();
        let before = lemma_filter_is_part(front, wanted);
        if wanted(list.last()) {
            before.push(list.len() - 1)
        } else {
            before
        }
    }
}

/// A look hands datagrams out in the order in which they were put on the line, those that were on it
/// before first, and each once: what it hands out and what stays on the way are, in their order, parts
/// of what was on the line, and together all of it.
pub proof fn law_order_of_the_line_is_kept(
    link: LinkModel,
    phase: Phase,
    queue_ms: u64,
    now: u64,
)
    requires
        !phase.outage,
    ensures
        ({
            let line = link.advanced(phase, queue_ms, now).flying;
            let out = link.delivered(phase, queue_ms, now);
            let rest = link.pumped(phase, queue_ms, now).flying;
            &&& link.flying.is_prefix_of(line)
            &&& exists|places: Seq<int>| is_part(out, line, places)
            &&& exists|places: Seq<int>| is_part(rest, line, places)
            &&& out.len() + rest.len() == line.len()
        }),
{
    let line = link.advanced(phase, queue_ms, now).flying;
    let a = lemma_filter_is_part(line, shaper::due_by(now));
    let b = lemma_filter_is_part(line, shaper::due_after(now));
    assert(is_part(link.delivered(phase, queue_ms, now), line, a));
    assert(is_part(link.pumped(phase, queue_ms, now).flying, line, b));
    shaper::lemma_arrivals(line, now, line.len() as int);
    lemma_line_grows(link.freshened(now, queue_ms), phase.kbps, now);
}

proof fn lemma_line_grows(link: LinkModel, kbps: u32, now: u64)
    ensures
        link.flying.is_prefix_of(link.transmitted(kbps, now).flying),
    decreases link.high.len() + link.low.len(),
{
    if link.free <= now && link.high.len() + link.low.len() > 0 {
        let next = link.launching(kbps, now);
        assert(link.flying.is_prefix_of(next.flying));
        if kbps == 0 {
            lemma_line_grows(next, kbps, now);
        }
    }
}

/// A datagram is sound if it is a media packet, of version two and with a header of twelve bytes at
/// least, with the payload type 111, and a picture if it is one with 96, whatever its marker says.
/// Everything else is control, and so are the packets of the control protocol, whose second byte is
/// from 192 to 223.
pub proof fn law_kinds_are_told_apart(data: Seq<u8>)
    ensures
        ({
            let media = data.len() >= 12 && 0x80 <= data[0] < 0xc0 && !(192 <= data[1] <= 223);
            &&& shaper::kind_of(data) == Kind::Audio <==> media && (data[1] == 111 || data[1] == 239)
            &&& shaper::kind_of(data) == Kind::Video <==> media && (data[1] == 96 || data[1] == 224)
        }),
{
}

/// Of a hundred draws, evenly spread, as many are lost as the percentage says: a draw is lost if it is
/// below the percentage by more than rounding to 53 binary digits can move it, and is not lost if it is
/// above by as much. Nothing is lost at zero, and everything at a hundred.
pub proof fn law_losses_follow_percentage(draw: u64, bound: double::Double)
    requires
        draw < 0x20_0000_0000_0000,
        bound.finite(),
    ensures
        ({
            let unit = vstd::arithmetic::power2::pow2(1021) as int;
            let one = 0x20_0000_0000_0000int;
            &&& 100 * draw * (one + 1) * unit < one * bound.scaled() ==> double::draws_below(
                draw,
                bound,
            )
            &&& double::draws_below(draw, bound) ==> 100 * draw * (one - 1) * unit < one
                * bound.scaled()
        }),
        bound.scaled() <= 0 ==> !double::draws_below(draw, bound),
        bound.scaled() >= 100 * vstd::arithmetic::power2::pow2(1074) ==> double::draws_below(
            draw,
            bound,
        ),
{
    let unit = vstd::arithmetic::power2::pow2(1021) as int;
    let one = 0x20_0000_0000_0000int;
    let whole = 100 * draw as int;
    let value = double::rounded(whole as nat) as int;
    let s = bound.scaled();
    vstd::arithmetic::power2::lemma_pow2_pos(1021);
    double::lemma_rounded(whole as nat);
    assert(one * value <= whole * (one + 1) && whole * (one - 1) <= one * value);
    assert(one * (value * unit) <= whole * (one + 1) * unit) by (nonlinear_arith)
        requires
            one * value <= whole * (one + 1),
            unit > 0,
    ;
    assert(whole * (one - 1) * unit <= one * (value * unit)) by (nonlinear_arith)
        requires
            whole * (one - 1) <= one * value,
            unit > 0,
    ;
    assert(100 * draw * (one + 1) * unit == whole * (one + 1) * unit);
    assert(100 * draw * (one - 1) * unit == whole * (one - 1) * unit);
    assert(value * unit >= 0) by (nonlinear_arith)
        requires
            value >= 0,
            unit > 0,
    ;
    vstd::arithmetic::power2::lemma_pow2_adds(53, 1021);
    vstd::arithmetic::power2::lemma2_to64_rest();
    assert(vstd::arithmetic::power2::pow2(1074) == one * unit);
    assert(value < 100 * one);
    assert(value * unit < 100 * (one * unit)) by (nonlinear_arith)
        requires
            value < 100 * one,
            unit > 0,
    ;
}

/// A higher percentage loses whatever a lower one loses.
pub proof fn law_more_percent_lose_more(draw: u64, low: double::Double, high: double::Double)
    requires
        low.finite() && high.finite(),
        low.scaled() <= high.scaled(),
        double::draws_below(draw, low),
    ensures
        double::draws_below(draw, high),
{
}

/// The peak that a link reports is the most that it has held: a datagram that comes in raises it to what
/// is held then, if that is more, and nothing else changes it.
pub proof fn law_peak_is_the_most_held(
    link: LinkModel,
    data: Seq<u8>,
    phase: Phase,
    queue_bytes: usize,
    queue_ms: u64,
    now: u64,
)
    requires
        link.measured(),
        link.bytes <= link.counts.peak_queue_bytes,
    ensures
        ({
            let peak = link.counts.peak_queue_bytes;
            let after = link.enqueued(data, phase, queue_bytes, now);
            &&& after.counts.peak_queue_bytes == (if after.bytes > peak {
                after.bytes
            } else {
                peak as int
            })
            &&& link.pumped(phase, queue_ms, now).counts.peak_queue_bytes == peak
            &&& link.flushed(now).counts.peak_queue_bytes == peak
        }),
{
    let size = data.len() as int + 28;
    let rng = shaper::next_random(link.rng);
    let drawn = LinkModel { rng, counts: link.counts.receiving(size), ..link };
    shaper::lemma_sizes(link.high);
    shaper::lemma_sizes(link.low);
    shaper::lemma_sizes(link.flying);
    shaper::lemma_evicting(drawn, size, queue_bytes as int);
    shaper::lemma_pumped_accounts(link, phase, queue_ms, now);
    shaper::lemma_flushed_accounts(link, now);
}

/// A datagram from elsewhere is counted as that, and in no other way.
pub proof fn law_strays_are_counted_apart(counts: shaper::Counts)
    requires
        counts.unexpected_sources < u64::MAX,
    ensures
        counts.stray().unexpected_sources == counts.unexpected_sources + 1,
        counts.stray().received_packets == counts.received_packets,
        counts.stray().received_ip_bytes == counts.received_ip_bytes,
        counts.stray().settled() == counts.settled(),
        counts.stray().peak_queue_bytes == counts.peak_queue_bytes,
{
}

} // verus!
