//! The audio stream of a call, between the network and the devices.
use crate::audio::{Profile, Source, FRAME};
use crate::metrics::Metrics;
use crate::packets;
use crate::packets::{PacketModel, RtpPacket};
use crate::queue::SampleQueue;
use crate::video::PLAYOUT_US;
use vstd::prelude::*;

verus! {

/// The name of the header extension that carries the creation time.
pub const TIMESTAMP_URI: &'static str = "urn:rcof:same-host-frame-created-us";

/// The longest packet that is decoded, in samples: 120 ms.
pub const LONGEST: usize = 5760;

/// The most samples that are made up for lost packets: 60 ms.
pub const CONCEALED: usize = FRAME * 3;

/// When a sample is played: the playout delay after its creation, where sound is kept together
/// with pictures and the creation time is known, else at once.
pub open spec fn play_at(created: u64, synchronize: bool, index: int, rate: u32) -> u64 {
    if synchronize && created > 0 {
        (created + PLAYOUT_US + index * 1_000_000 / rate as int) as u64
    } else {
        0
    }
}

/// Samples with the times at which they are played.
pub open spec fn scheduled(
    values: Seq<u32>,
    created: u64,
    synchronize: bool,
    rate: u32,
) -> Seq<(u32, u64)> {
    Seq::new(values.len(), |i: int| (values[i], play_at(created, synchronize, i, rate)))
}

/// How many samples are too many for a queue.
pub open spec fn surplus(count: int, limit: int) -> int {
    if count < limit {
        0
    } else {
        count - limit
    }
}

/// A counter that wraps around.
pub open spec fn counted(counter: u64, count: int) -> u64 {
    ((counter + count) % 0x1_0000_0000_0000_0000) as u64
}

/// One sample more leaves the newest ones in the queue.
proof fn lemma_pushed(before: Seq<(u32, u64)>, more: Seq<(u32, u64)>, limit: nat, i: int)
    requires
        0 < limit,
        before.len() <= limit,
        0 <= i < more.len(),
    ensures
        ({
            let now = before + more.take(i);
            let next = before + more.take(i + 1);
            SampleQueue::pushed(
                now.skip(surplus(now.len() as int, limit as int)),
                limit,
                more[i],
            ) == next.skip(surplus(next.len() as int, limit as int))
        }),
{
    let now = before + more.take(i);
    let next = before + more.take(i + 1);
    assert(SampleQueue::pushed(
        now.skip(surplus(now.len() as int, limit as int)),
        limit,
        more[i],
    ) =~= next.skip(surplus(next.len() as int, limit as int)));
}

/// Hands decoded samples, as bit patterns at the device's rate, to the playing side. Where there
/// are too many, the oldest are dropped.
pub fn enqueue_audio(
    values: &Vec<u32>,
    created: u64,
    synchronize: bool,
    output_rate: u32,
    queue: &mut SampleQueue,
    metrics: &mut Metrics,
)
    requires
        output_rate > 0,
        (values@.len() - 1) * 1_000_000 <= u64::MAX,
        synchronize && created > 0 && values@.len() > 0 ==> created + PLAYOUT_US + (values@.len() - 1) * 1_000_000
            / output_rate as int <= u64::MAX,
    ensures
        ({
            let all = old(queue)@ + scheduled(values@, created, synchronize, output_rate);
            let dropped = surplus(all.len() as int, old(queue).limit() as int);
            &&& final(queue)@ == all.skip(dropped)
            &&& *final(metrics) == (Metrics {
                playback_dropped: counted(old(metrics).playback_dropped, dropped),
                playback_peak: crate::audio::larger(
                    old(metrics).playback_peak,
                    final(queue)@.len() as u64,
                ),
                ..*old(metrics)
            })
        }),
        final(queue).limit() == old(queue).limit(),
{
    let ghost more = scheduled(values@, created, synchronize, output_rate);
    let ghost limit = queue.limit();
    let _ = queue.capacity();
    let _ = queue.len();
    let mut index: usize = 0;
    assert((queue@ + more.take(0)).skip(surplus(queue@.len() as int, limit as int)) =~= queue@);
    while index < values.len()
        invariant
            index <= values@.len(),
            output_rate > 0,
            (values@.len() - 1) * 1_000_000 <= u64::MAX,
            synchronize && created > 0 && values@.len() > 0 ==> created + PLAYOUT_US + (values@.len() - 1) * 1_000_000
                / output_rate as int <= u64::MAX,
            more == scheduled(values@, created, synchronize, output_rate),
            limit == queue.limit() == old(queue).limit(),
            limit > 0,
            old(queue)@.len() <= limit,
            ({
                let all = old(queue)@ + more.take(index as int);
                &&& queue@ == all.skip(surplus(all.len() as int, limit as int))
                &&& *metrics == (Metrics {
                    playback_dropped: counted(
                        old(metrics).playback_dropped,
                        surplus(all.len() as int, limit as int),
                    ),
                    ..*old(metrics)
                })
            }),
        decreases values@.len() - index,
    {
        proof {
            lemma_pushed(old(queue)@, more, limit, index as int);
            vstd::arithmetic::div_mod::lemma_div_is_ordered(
                index * 1_000_000,
                (values@.len() - 1) * 1_000_000,
                output_rate as int,
            );
        }
        let at: u64 = if synchronize && created > 0 {
            created + PLAYOUT_US + (index as u64 * 1_000_000) / (output_rate as u64)
        } else {
            0
        };
        assert((values@[index as int], at) == more[index as int]);
        if queue.push((values[index], at)) {
            crate::metrics::add(&mut metrics.playback_dropped, 1);
        }
        index += 1;
    }
    assert(more.take(index as int) =~= more);
    let length: usize = queue.len();
    crate::metrics::raise(&mut metrics.playback_peak, length as u64);
}

/// What the receiving side remembers of the last packet that it decoded.
pub struct AudioReceiver {
    pub last_sequence: Option<u16>,
    pub last_samples: usize,
}

/// What is to be done with a packet: how many lost packets to make up for before it, when it was
/// made, zero where that is not known, and how long it is.
#[derive(Clone, Copy, Debug, PartialEq, Eq, Structural)]
pub struct Plan {
    pub missing: u16,
    pub created: u64,
    pub samples: usize,
}

/// How far a sequence number is from the last one. Sequence numbers wrap around.
pub open spec fn step(sequence: u16, last: u16) -> int {
    (sequence - last) % 0x1_0000
}

/// The age of a packet that says when it was made: not in the future, and less than ten seconds.
pub open spec fn known_age(packet: PacketModel, now: u64) -> Option<u64> {
    match packets::stamp(packet.extension) {
        Some(created) if created <= now && now - created < 10_000_000 => Some(
            (now - created) as u64,
        ),
        _ => None,
    }
}

impl AudioReceiver {
    /// The last packet had a length that can be decoded.
    pub open spec fn wf(self) -> bool {
        1 <= self.last_samples <= LONGEST
    }

    /// Whether a packet comes after the last one.
    pub open spec fn follows(self, sequence: u16) -> bool {
        self.last_sequence matches Some(last) ==> 1 <= step(sequence, last) <= 32768
    }

    /// How many packets are lost between the last one and another.
    pub open spec fn lost(self, sequence: u16) -> int {
        match self.last_sequence {
            Some(last) => step(sequence, last) - 1,
            None => 0,
        }
    }

    /// How many lost packets are made up for: no more than 60 ms of sound.
    pub open spec fn made_up(self, sequence: u16) -> int {
        let most = CONCEALED as int / self.last_samples as int;
        if self.lost(sequence) < most {
            self.lost(sequence)
        } else {
            most
        }
    }

    /// Nothing received yet.
    pub fn new() -> (r: Self)
        ensures
            r.wf(),
            r == (AudioReceiver { last_sequence: None, last_samples: FRAME }),
    {
        AudioReceiver { last_sequence: None, last_samples: FRAME }
    }

    /// Decides what is done with a packet whose length the decoder has read; no length stands for
    /// one that the decoder could not read.
    pub fn accept(
        &mut self,
        packet: &RtpPacket,
        samples: Option<usize>,
        now: u64,
        metrics: &mut Metrics,
    ) -> (r: Option<Plan>)
        requires
            old(self).wf(),
        ensures
            final(self).wf(),
            final(self).last_samples == old(self).last_samples,
            ({
                let readable = samples matches Some(length) && 1 <= length <= LONGEST;
                let sequence = packet.sequence_number;
                if !readable {
                    &&& r is None
                    &&& *final(self) == *old(self)
                    &&& *final(metrics) == (Metrics {
                        decode_errors: old(metrics).decode_errors.wrapping_add(1),
                        ..*old(metrics)
                    })
                } else if !old(self).follows(sequence) {
                    &&& r is None
                    &&& *final(self) == *old(self)
                    &&& *final(metrics) == (Metrics {
                        late_packets: old(metrics).late_packets.wrapping_add(1),
                        ..*old(metrics)
                    })
                } else {
                    let age = known_age(packet@, now);
                    &&& final(self).last_sequence == Some(sequence)
                    &&& r == Some(
                        Plan {
                            missing: old(self).made_up(sequence) as u16,
                            created: if age is Some {
                                packets::stamp(packet@.extension)->Some_0
                            } else {
                                0
                            },
                            samples: samples->Some_0,
                        },
                    )
                    &&& *final(metrics) == (Metrics {
                        gaps: counted(old(metrics).gaps, old(self).lost(sequence)),
                        rx_payload: old(metrics).rx_payload.wrapping_add(
                            packet.payload@.len() as u64,
                        ),
                        audio_age_us: if age is Some {
                            age->Some_0
                        } else {
                            old(metrics).audio_age_us
                        },
                        frame_to_decode: final(metrics).frame_to_decode,
                        ..*old(metrics)
                    })
                    &&& age is None ==> final(metrics).frame_to_decode == old(
                        metrics,
                    ).frame_to_decode
                    &&& age is Some ==> final(metrics).frame_to_decode@
                        == crate::metrics::recorded(
                        old(metrics).frame_to_decode@,
                        age->Some_0,
                    )
                }
            }),
    {
        let length: usize = match samples {
            Some(length) => length,
            None => 0,
        };
        if length == 0 || length > LONGEST {
            crate::metrics::add(&mut metrics.decode_errors, 1);
            return None;
        }
        let sequence: u16 = packet.sequence_number;
        let mut missing: u16 = 0;
        proof {
            let most = CONCEALED as int / self.last_samples as int;
            assert(0 <= most <= CONCEALED) by (nonlinear_arith)
                requires
                    most == CONCEALED as int / self.last_samples as int,
                    self.last_samples >= 1,
            ;
        }
        if let Some(last) = self.last_sequence {
            let step: u16 = sequence.wrapping_sub(last);
            if step == 0 || step > 32768 {
                crate::metrics::add(&mut metrics.late_packets, 1);
                return None;
            }
            if step > 1 {
                crate::metrics::add(&mut metrics.gaps, (step - 1) as usize);
                let most: u16 = (CONCEALED / self.last_samples) as u16;
                missing = if step - 1 < most {
                    step - 1
                } else {
                    most
                };
            }
        }
        self.last_sequence = Some(sequence);
        crate::metrics::add(&mut metrics.rx_payload, packet.payload.len());
        let mut created: u64 = 0;
        if let Some(stamped) = packets::read_stamp(&packet.extension) {
            if stamped <= now && now - stamped < 10_000_000 {
                created = stamped;
                metrics.frame_to_decode.record(now - stamped);
                metrics.audio_age_us = now - stamped;
            }
        }
        Some(Plan { missing, created, samples: length })
    }

    /// The creation time of a packet that is made up for, so many packets before the one that was
    /// received.
    pub fn conceal(&self, created: u64, back: u16, metrics: &mut Metrics) -> (r: u64)
        requires
            self.wf(),
        ensures
            r == concealed_at(created, back, self.last_samples),
            r == crate::video::excess(
                created,
                (back * self.last_samples * 1_000_000int / 48_000) as u64,
            ),
            *final(metrics) == (Metrics {
                audio_concealed_frames: old(metrics).audio_concealed_frames.wrapping_add(1),
                ..*old(metrics)
            }),
    {
        crate::metrics::add(&mut metrics.audio_concealed_frames, 1);
        assert(0 <= back * self.last_samples <= 65535 * 5760) by (nonlinear_arith)
            requires
                0 <= back <= 65535,
                0 <= self.last_samples <= 5760,
        ;
        let offset: u64 = back as u64 * self.last_samples as u64 * 1_000_000 / 48_000;
        created.saturating_sub(offset)
    }

    /// Notes that a packet was decoded: into which samples, as bit patterns, and in what time.
    pub fn decoded(
        &mut self,
        packet_samples: usize,
        values: &Vec<u32>,
        elapsed_us: u64,
        metrics: &mut Metrics,
    )
        requires
            1 <= packet_samples <= LONGEST,
        ensures
            final(self).wf(),
            *final(self) == (AudioReceiver { last_samples: packet_samples, ..*old(self) }),
            final(metrics).decode_time@ == crate::metrics::recorded(
                old(metrics).decode_time@,
                elapsed_us,
            ),
            *final(metrics) == (Metrics {
                decode_time: final(metrics).decode_time,
                rx_packet_samples: values@.len() as u64,
                rx_samples: old(metrics).rx_samples.wrapping_add(values@.len() as u64),
                rx_frames: old(metrics).rx_frames.wrapping_add(1),
                rx_non_silent: if audible(values@) {
                    old(metrics).rx_non_silent.wrapping_add(1)
                } else {
                    old(metrics).rx_non_silent
                },
                ..*old(metrics)
            }),
    {
        metrics.decode_time.record(elapsed_us);
        self.last_samples = packet_samples;
        let count: usize = values.len();
        metrics.rx_packet_samples = count as u64;
        crate::metrics::add(&mut metrics.rx_samples, count);
        crate::metrics::add(&mut metrics.rx_frames, 1);
        if any_audible(values) {
            crate::metrics::add(&mut metrics.rx_non_silent, 1);
        }
    }

    /// Notes that the decoder refused a packet.
    pub fn refused(metrics: &mut Metrics)
        ensures
            *final(metrics) == (Metrics {
                decode_errors: old(metrics).decode_errors.wrapping_add(1),
                ..*old(metrics)
            }),
    {
        crate::metrics::add(&mut metrics.decode_errors, 1);
    }
}

/// When a lost packet was made that lies so many packets, each of so many samples at 48 kHz, before one
/// that was made at the given time; zero where that is before the clock began.
pub open spec fn concealed_at(created: u64, back: u16, samples: usize) -> u64 {
    crate::video::excess(created, (back * samples * 1_000_000int / 48_000) as u64)
}

/// Whether a bit pattern is that of a number larger than a thousandth, of either sign. Without
/// their sign bit, the patterns of numbers are ordered as the numbers are, and those above the
/// pattern of infinity are no numbers.
pub open spec fn is_audible(bits: u32) -> bool {
    0x3a83_126f < bits % 0x8000_0000 <= 0x7f80_0000
}

/// Whether any of the samples is audible.
pub open spec fn audible(values: Seq<u32>) -> bool {
    exists|i: int| 0 <= i < values.len() && is_audible(#[trigger] values[i])
}

/// Whether any of the samples is audible.
pub fn any_audible(values: &Vec<u32>) -> (r: bool)
    ensures
        r == audible(values@),
{
    let mut i: usize = 0;
    while i < values.len()
        invariant
            i <= values@.len(),
            forall|k: int| 0 <= k < i ==> !is_audible(#[trigger] values@[k]),
        decreases values@.len() - i,
    {
        let magnitude: u32 = values[i] % 0x8000_0000;
        if 0x3a83_126f < magnitude && magnitude <= 0x7f80_0000 {
            assert(is_audible(values@[i as int]));
            return true;
        }
        i += 1;
    }
    false
}

/// However long an outage was, no more than 60 ms of sound is made up for it.
pub proof fn law_concealment_is_bounded(receiver: AudioReceiver, sequence: u16)
    requires
        receiver.wf(),
        receiver.follows(sequence),
    ensures
        0 <= receiver.made_up(sequence) <= receiver.lost(sequence),
        receiver.made_up(sequence) * receiver.last_samples <= CONCEALED,
{
    let most = CONCEALED as int / receiver.last_samples as int;
    let made = receiver.made_up(sequence);
    assert(0 <= most && most * receiver.last_samples <= CONCEALED) by (nonlinear_arith)
        requires
            most == CONCEALED as int / receiver.last_samples as int,
            receiver.last_samples >= 1,
    ;
    assert(made * receiver.last_samples <= most * receiver.last_samples) by (nonlinear_arith)
        requires
            made <= most,
            receiver.last_samples >= 1,
    ;
}

/// Nothing is made up for where no packet was lost.
pub proof fn law_no_concealment_without_loss(receiver: AudioReceiver, last: u16)
    requires
        receiver.wf(),
        receiver.last_sequence == Some(last),
    ensures
        receiver.made_up(last.wrapping_add(1)) == 0,
        receiver.lost(last.wrapping_add(1)) == 0,
{
    let most = CONCEALED as int / receiver.last_samples as int;
    assert(0 <= most) by (nonlinear_arith)
        requires
            most == CONCEALED as int / receiver.last_samples as int,
            receiver.last_samples >= 1,
    ;
}

/// How the sending side encodes.
#[derive(Clone, Copy, Debug, PartialEq, Eq, Structural)]
pub struct AudioSettings {
    pub packet_ms: u64,
    pub samples: usize,
    pub bitrate: u32,
    pub dtx: bool,
    pub complexity: u8,
}

/// The settings of a profile, with what was asked for in its place.
pub open spec fn settings(
    profile: Profile,
    bitrate: Option<u32>,
    no_dtx: bool,
    complexity: u8,
) -> AudioSettings {
    AudioSettings {
        packet_ms: profile.duration(),
        samples: (48 * profile.duration()) as usize,
        bitrate: match bitrate {
            Some(bitrate) => bitrate,
            None => profile.target(),
        },
        dtx: profile != Profile::Standard && !no_dtx,
        complexity,
    }
}

/// Chooses the settings of a profile, with what was asked for in its place, and notes them.
pub fn audio_settings(
    profile: Profile,
    bitrate: Option<u32>,
    no_dtx: bool,
    complexity: u8,
    metrics: &mut Metrics,
) -> (r: AudioSettings)
    ensures
        r == settings(profile, bitrate, no_dtx, complexity),
        *final(metrics) == (Metrics {
            audio_complexity: complexity as u64,
            audio_packet_ms: r.packet_ms,
            audio_target_bps: r.bitrate as u64,
            ..*old(metrics)
        }),
{
    let packet_ms: u64 = profile.packet_ms();
    let bitrate: u32 = match bitrate {
        Some(bitrate) => bitrate,
        None => profile.bitrate(),
    };
    metrics.audio_complexity = complexity as u64;
    metrics.audio_packet_ms = packet_ms;
    metrics.audio_target_bps = bitrate as u64;
    AudioSettings {
        packet_ms,
        samples: (48_000 * packet_ms / 1000) as usize,
        bitrate,
        dtx: profile.dtx() && !no_dtx,
        complexity,
    }
}

/// Whether the sender has slept through so much that it starts a new rhythm, rather than send all
/// that it missed at once.
pub fn overslept(late_ns: u64) -> (r: bool)
    ensures
        r == (late_ns > 100_000_000),
{
    late_ns > 100_000_000
}

/// Where the sending side stands in its stream.
pub struct AudioSender {
    pub source: Source,
    pub samples: usize,
    pub capture_ready: bool,
    pub sequence: u16,
    pub timestamp: u32,
}

/// The samples that are taken from a queue, silence where it has run out.
pub open spec fn drawn(items: Seq<(u32, u64)>, count: nat) -> Seq<u32> {
    Seq::new(
        count,
        |i: int|
            if i < items.len() {
                items[i].0
            } else {
                0
            },
    )
}

/// Samples that cannot be heard.
pub open spec fn silence(count: nat) -> Seq<u32> {
    Seq::new(count, |i: int| 0u32)
}

/// What of the samples goes to the encoder.
pub open spec fn encoded_of(values: Seq<u32>, muted: bool) -> Seq<u32> {
    if muted {
        silence(values.len())
    } else {
        values
    }
}

/// Who is muted sends as much as before, and nothing of it can be heard; who is not sends what there is.
pub proof fn law_mute_keeps_the_flow(values: Seq<u32>, muted: bool, i: int)
    requires
        0 <= i < values.len(),
    ensures
        encoded_of(values, muted).len() == values.len(),
        muted ==> encoded_of(values, muted)[i] == 0,
        !muted ==> encoded_of(values, muted)[i] == values[i],
{
}

/// Samples that cannot be heard.
pub fn silent(count: usize) -> (r: Vec<u32>)
    ensures
        r@ == silence(count as nat),
{
    let r: Vec<u32> = vec![0u32; count];
    assert(r@ =~= silence(count as nat));
    r
}

/// Takes samples from the recording side, and counts those that are missing.
pub fn take_capture(queue: &mut SampleQueue, count: usize, metrics: &mut Metrics) -> (r: Vec<u32>)
    ensures
        r@ == drawn(old(queue)@, count as nat),
        final(queue)@ == (if count < old(queue)@.len() {
            old(queue)@.skip(count as int)
        } else {
            Seq::empty()
        }),
        final(queue).limit() == old(queue).limit(),
        *final(metrics) == (Metrics {
            capture_missing: counted(
                old(metrics).capture_missing,
                surplus(count as int, old(queue)@.len() as int),
            ),
            ..*old(metrics)
        }),
{
    let ghost items = queue@;
    let mut r: Vec<u32> = Vec::new();
    let mut i: usize = 0;
    assert(items.skip(0) =~= items);
    while i < count
        invariant
            i <= count,
            items == old(queue)@,
            r@ == drawn(items, i as nat),
            queue@ == (if i < items.len() {
                items.skip(i as int)
            } else {
                Seq::empty()
            }),
            queue.limit() == old(queue).limit(),
            *metrics == (Metrics {
                capture_missing: counted(
                    old(metrics).capture_missing,
                    surplus(i as int, items.len() as int),
                ),
                ..*old(metrics)
            }),
        decreases count - i,
    {
        let value: u32 = match queue.pop() {
            Some((value, _)) => value,
            None => {
                crate::metrics::add(&mut metrics.capture_missing, 1);
                0
            },
        };
        r.push(value);
        i += 1;
        assert(r@ =~= drawn(items, i as nat));
        assert(queue@ =~= (if i < items.len() {
            items.skip(i as int)
        } else {
            Seq::empty()
        }));
    }
    assert(queue@ =~= (if count < items.len() {
        items.skip(count as int)
    } else {
        Seq::empty()
    }));
    r
}

impl AudioSender {
    /// Whether a packet can be made with so many samples recorded.
    pub open spec fn can_send(self, recorded: int) -> bool {
        self.capture_ready || recorded >= self.samples + FRAME
    }

    /// The state once a packet was sent.
    pub open spec fn moved_on(self) -> AudioSender {
        AudioSender {
            sequence: self.sequence.wrapping_add(1),
            timestamp: self.timestamp.wrapping_add(self.samples as u32),
            ..self
        }
    }

    /// The state once so many packets were sent.
    pub open spec fn moved_on_by(self, count: nat) -> AudioSender
        decreases count,
    {
        if count == 0 {
            self
        } else {
            self.moved_on_by((count - 1) as nat).moved_on()
        }
    }

    /// A stream that has not begun. Only a microphone has to fill its queue first.
    pub fn new(source: Source, samples: usize) -> (r: Self)
        ensures
            r == (AudioSender {
                source,
                samples,
                capture_ready: source != Source::Mic,
                sequence: 0,
                timestamp: 0,
            }),
    {
        AudioSender {
            source,
            samples,
            capture_ready: source != Source::Mic,
            sequence: 0,
            timestamp: 0,
        }
    }

    /// Whether a packet can be made: a stream begins once a packet and 20 ms more are recorded,
    /// and goes on from there.
    pub fn ready(&mut self, queue: &SampleQueue) -> (r: bool)
        ensures
            r == old(self).can_send(queue@.len() as int),
            r == (old(self).capture_ready || queue@.len() >= old(self).samples + FRAME),
            *final(self) == (AudioSender { capture_ready: r, ..*old(self) }),
    {
        let length: usize = queue.len();
        if !self.capture_ready {
            if length < FRAME || length - FRAME < self.samples {
                return false;
            }
            self.capture_ready = true;
        }
        true
    }

    /// The samples of the next packet: those of the tone that was made for it, silence, or what
    /// the microphone recorded.
    pub fn gather(&self, tone: Vec<u32>, queue: &mut SampleQueue, metrics: &mut Metrics) -> (r: Vec<
        u32,
    >)
        ensures
            match self.source {
                Source::Tone => {
                    &&& r@ == tone@
                    &&& *final(queue) == *old(queue)
                    &&& *final(metrics) == *old(metrics)
                },
                Source::Silence => {
                    &&& r@ == silence(self.samples as nat)
                    &&& *final(queue) == *old(queue)
                    &&& *final(metrics) == *old(metrics)
                },
                Source::Mic => {
                    &&& r@ == drawn(old(queue)@, self.samples as nat)
                    &&& final(queue)@ == (if self.samples < old(queue)@.len() {
                        old(queue)@.skip(self.samples as int)
                    } else {
                        Seq::empty()
                    })
                    &&& final(queue).limit() == old(queue).limit()
                    &&& *final(metrics) == (Metrics {
                        capture_missing: counted(
                            old(metrics).capture_missing,
                            surplus(self.samples as int, old(queue)@.len() as int),
                        ),
                        ..*old(metrics)
                    })
                },
            },
    {
        match self.source {
            Source::Tone => tone,
            Source::Silence => silent(self.samples),
            Source::Mic => take_capture(queue, self.samples, metrics),
        }
    }

    /// What goes to the encoder: silence in place of the samples, if the participant is muted.
    pub fn outgoing(values: Vec<u32>, muted: bool) -> (r: Vec<u32>)
        ensures
            r@ == encoded_of(values@, muted),
            r@ == (if muted {
                silence(values@.len())
            } else {
                values@
            }),
    {
        if muted {
            silent(values.len())
        } else {
            values
        }
    }

    /// The next packet, with what the encoder made of it.
    pub fn packet(&self, payload: Vec<u8>, created: u64, stamped: bool) -> (r: RtpPacket)
        ensures
            r@ == (PacketModel {
                sequence_number: self.sequence,
                timestamp: self.timestamp,
                marker: false,
                extension: crate::vp8::stamp_extension(created, stamped),
                payload: payload@,
            }),
    {
        let extension = if stamped {
            Some(packets::write_stamp(created))
        } else {
            None
        };
        RtpPacket {
            sequence_number: self.sequence,
            timestamp: self.timestamp,
            marker: false,
            extension,
            payload,
        }
    }

    /// Goes on to the next packet, once one with so many bytes was sent.
    pub fn sent(&mut self, payload: usize, metrics: &mut Metrics)
        ensures
            *final(self) == old(self).moved_on(),
            *final(self) == (AudioSender {
                sequence: old(self).sequence.wrapping_add(1),
                timestamp: old(self).timestamp.wrapping_add(old(self).samples as u32),
                ..*old(self)
            }),
            *final(metrics) == (Metrics {
                tx_samples: old(metrics).tx_samples.wrapping_add(old(self).samples as u64),
                tx_frames: old(metrics).tx_frames.wrapping_add(1),
                tx_payload: old(metrics).tx_payload.wrapping_add(payload as u64),
                ..*old(metrics)
            }),
    {
        self.sequence = self.sequence.wrapping_add(1);
        #[verifier::truncate]
        let samples: u32 = self.samples as u32;
        self.timestamp = self.timestamp.wrapping_add(samples);
        crate::metrics::add(&mut metrics.tx_samples, self.samples);
        crate::metrics::add(&mut metrics.tx_frames, 1);
        crate::metrics::add(&mut metrics.tx_payload, payload);
    }
}

/// The receiving side takes a packet of the sending side as the next one, with nothing lost, where
/// it has seen the one before.
pub proof fn law_stream_is_gapless(sender: AudioSender, receiver: AudioReceiver)
    requires
        receiver.wf(),
        receiver.last_sequence == Some(sender.sequence),
    ensures
        receiver.follows(sender.sequence.wrapping_add(1)),
        receiver.made_up(sender.sequence.wrapping_add(1)) == 0,
{
    law_no_concealment_without_loss(receiver, sender.sequence);
}

/// Lost packets are made up for as far as 60 ms reach: all of them where they fit, and otherwise so
/// many that one more would not fit. Samples are counted at 48 kHz, so 60 ms are 2880 of them.
pub proof fn law_lost_packets_are_made_up(receiver: AudioReceiver, sequence: u16)
    requires
        receiver.wf(),
        receiver.follows(sequence),
    ensures
        receiver.lost(sequence) * receiver.last_samples <= 2880 ==> receiver.made_up(sequence)
            == receiver.lost(sequence),
        receiver.lost(sequence) * receiver.last_samples > 2880 ==> {
            &&& receiver.made_up(sequence) * receiver.last_samples <= 2880
            &&& (receiver.made_up(sequence) + 1) * receiver.last_samples > 2880
        },
{
    let samples = receiver.last_samples as int;
    let lost = receiver.lost(sequence);
    let most = 2880int / samples;
    vstd::arithmetic::div_mod::lemma_fundamental_div_mod(2880, samples);
    assert(samples * most <= 2880 < samples * most + samples);
    assert(most * samples == samples * most && (most + 1) * samples == samples * most + samples)
        by (nonlinear_arith);
    if lost < most {
        assert(lost * samples <= most * samples) by (nonlinear_arith)
            requires
                lost <= most,
                samples > 0,
        ;
    } else {
        assert(lost > most ==> lost * samples >= (most + 1) * samples) by (nonlinear_arith)
            requires
                samples > 0,
        ;
        if lost * samples <= 2880 {
            assert(lost == most);
        }
    }
}

/// A packet follows another if it is one to 32768 numbers after it, wherever the numbers wrap around;
/// the packets between them are the lost ones.
pub proof fn law_gap_is_counted(receiver: AudioReceiver, last: u16, distance: int)
    requires
        receiver.last_sequence == Some(last),
        0 <= distance < 65536,
    ensures
        ({
            let sequence = ((last + distance) % 65536) as u16;
            &&& receiver.follows(sequence) <==> 1 <= distance <= 32768
            &&& receiver.follows(sequence) ==> receiver.lost(sequence) == distance - 1
        }),
{
}

/// The first packet follows, and nothing is lost before it.
pub proof fn law_first_packet_follows(receiver: AudioReceiver, sequence: u16)
    requires
        receiver.last_sequence is None,
    ensures
        receiver.follows(sequence),
        receiver.lost(sequence) == 0,
{
}

/// Sound that is kept together with pictures is played 120 ms after its creation, each sample by its
/// place in the packet later; without a creation time, or without pictures, it is played at once.
pub proof fn law_when_samples_are_played(
    values: Seq<u32>,
    created: u64,
    synchronize: bool,
    rate: u32,
    i: int,
)
    requires
        rate > 0,
        0 <= i < values.len(),
        created + 120_000 + i * 1_000_000 / rate as int <= u64::MAX,
    ensures
        ({
            let samples = scheduled(values, created, synchronize, rate);
            &&& samples.len() == values.len()
            &&& samples[i].0 == values[i]
            &&& synchronize && created > 0 ==> (samples[i].1 - created - 120_000) * rate <= i
                * 1_000_000 < (samples[i].1 - created - 120_000 + 1) * rate
            &&& !synchronize || created == 0 ==> samples[i].1 == 0
        }),
{
    let offset = i * 1_000_000 / rate as int;
    vstd::arithmetic::div_mod::lemma_fundamental_div_mod(i * 1_000_000, rate as int);
    assert(offset * rate == rate * offset && (offset + 1) * rate == rate * offset + rate)
        by (nonlinear_arith);
    assert(offset >= 0) by (nonlinear_arith)
        requires
            offset == i * 1_000_000 / rate as int,
            i >= 0,
            rate > 0,
    ;
}

/// A packet's age is believed if the time that was written on it is not in the future and less than ten
/// seconds ago.
pub proof fn law_age_of_packets(packet: PacketModel, created: u64, now: u64)
    requires
        packet.extension == Some(packets::big_endian_bytes(created as nat, 8)),
    ensures
        known_age(packet, now) == (if 0 <= now - created < 10 * 1_000_000 {
            Some((now - created) as u64)
        } else {
            None
        }),
{
    packets::law_stamp_round_trip(created);
}

/// A packet without a time on it has no age.
pub proof fn law_no_time_no_age(packet: PacketModel, now: u64)
    requires
        packet.extension is None,
    ensures
        known_age(packet, now) is None,
{
}

/// A counter counts on, and what is too much for a queue is what is above its limit.
pub proof fn law_counting(counter: u64, count: int, limit: int)
    requires
        0 <= count,
        0 <= limit,
    ensures
        counter + count <= u64::MAX ==> counted(counter, count) == counter + count,
        count >= limit ==> surplus(count, limit) + limit == count,
        count <= limit ==> surplus(count, limit) == 0,
{
}

/// The settings of a profile: as many samples as its packets last for at 48 kHz, the bits that were asked
/// for or else its own, and silence unsent unless that was refused or the packets are the shortest.
pub proof fn law_settings_of_a_profile(
    profile: Profile,
    bitrate: Option<u32>,
    no_dtx: bool,
    complexity: u8,
)
    ensures
        ({
            let chosen = settings(profile, bitrate, no_dtx, complexity);
            &&& chosen.samples * 1000 == chosen.packet_ms * 48_000
            &&& chosen.packet_ms == profile.duration()
            &&& bitrate is Some ==> Some(chosen.bitrate) == bitrate
            &&& bitrate is None ==> chosen.bitrate == profile.target()
            &&& chosen.dtx <==> !no_dtx && profile.duration() > 20
            &&& chosen.complexity == complexity
        }),
{
}

/// What the encoder is given of a microphone is what was recorded, in its order, and silence for what is
/// missing.
pub proof fn law_recorded_samples_are_sent(items: Seq<(u32, u64)>, count: nat, i: int)
    requires
        0 <= i < count,
    ensures
        drawn(items, count).len() == count,
        i < items.len() ==> drawn(items, count)[i] == items[i].0,
        i >= items.len() ==> drawn(items, count)[i] == 0,
        silence(count).len() == count,
        silence(count)[i] == 0,
{
}

/// The packets that are made up for lie one after the other and end where the received one begins: from
/// one of them to the next, and from the last to the received packet, it is as long as a packet lasts at
/// 48 kHz, give or take a microsecond.
pub proof fn law_concealed_packets_are_contiguous(created: u64, back: u16, samples: usize)
    requires
        1 <= back,
        1 <= samples <= LONGEST,
        back * samples * 1_000_000 <= created * 48_000,
    ensures
        ({
            let here = concealed_at(created, back, samples);
            let next = concealed_at(created, (back - 1) as u16, samples);
            &&& -48_000 < (next - here) * 48_000 - samples * 1_000_000 < 48_000
            &&& back == 1 ==> next == created
        }),
{
    let far = back * samples * 1_000_000int;
    let near = (back - 1) * samples * 1_000_000int;
    assert(far == near + samples * 1_000_000) by (nonlinear_arith)
        requires
            far == back * samples * 1_000_000int,
            near == (back - 1) * samples * 1_000_000int,
    ;
    assert(0 <= near && far <= 65535 * 5760 * 1_000_000) by (nonlinear_arith)
        requires
            near == (back - 1) * samples * 1_000_000int,
            far == back * samples * 1_000_000int,
            1 <= back <= 65535,
            1 <= samples <= 5760,
    ;
    if back == 1 {
        assert(near == 0) by (nonlinear_arith)
            requires
                near == (back - 1) * samples * 1_000_000int,
                back == 1,
        ;
    }
}

/// A stream from a microphone begins once a packet and 20 ms more are recorded, and then goes on; every
/// other stream begins at once.
pub proof fn law_when_a_stream_begins(sender: AudioSender, recorded: int)
    ensures
        sender.capture_ready ==> sender.can_send(recorded),
        !sender.capture_ready ==> (sender.can_send(recorded) <==> recorded - sender.samples >= 960),
{
}

/// Packets are numbered one after the other, and their timestamps count the samples before them; both
/// wrap around.
pub proof fn law_packets_are_numbered(sender: AudioSender, count: nat)
    requires
        sender.samples <= u32::MAX,
    ensures
        sender.moved_on_by(count).sequence == (sender.sequence + count) % 65536,
        sender.moved_on_by(count).timestamp == (sender.timestamp + count * sender.samples)
            % 0x1_0000_0000,
        sender.moved_on_by(count).samples == sender.samples,
        sender.moved_on_by(count).source == sender.source,
        sender.moved_on_by(count).capture_ready == sender.capture_ready,
    decreases count,
{
    if count > 0 {
        let n = (count - 1) as nat;
        law_packets_are_numbered(sender, n);
        assert(count * sender.samples == n * sender.samples + sender.samples) by (nonlinear_arith)
            requires
                count == n + 1,
        ;
    } else {
        assert(0 * sender.samples == 0) by (nonlinear_arith);
    }
}

} // verus!
