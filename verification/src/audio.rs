//! The sound side of a call: profiles, devices, and the pace at which samples are played.
use crate::metrics::Metrics;
use crate::queue::SampleQueue;
use crate::text;
use vstd::prelude::*;

verus! {

/// Samples per second inside the call.
pub const RATE: u32 = 48_000;

/// Samples in 20 ms.
pub const FRAME: usize = 960;

/// Samples in 100 ms, the bound of a queue.
pub const CAPACITY: usize = FRAME * 5;

/// Trades bandwidth against delay.
#[derive(Clone, Copy, Debug, PartialEq, Eq, Structural)]
pub enum Profile {
    Standard,
    Efficient,
    Minimum,
}

impl Default for Profile {
    fn default() -> (r: Self)
        ensures
            r == Profile::Standard,
    {
        Profile::Standard
    }
}

impl Profile {
    /// The duration of a packet in milliseconds.
    pub open spec fn duration(self) -> u64 {
        match self {
            Profile::Standard => 20,
            Profile::Efficient => 40,
            Profile::Minimum => 60,
        }
    }

    /// The bits per second that the encoder aims at.
    pub open spec fn target(self) -> u32 {
        if self == Profile::Minimum {
            16_000
        } else {
            24_000
        }
    }

    /// The duration of a packet in milliseconds.
    pub fn packet_ms(self) -> (r: u64)
        ensures
            r == self.duration(),
    {
        match self {
            Profile::Standard => 20,
            Profile::Efficient => 40,
            Profile::Minimum => 60,
        }
    }

    /// The bits per second that the encoder aims at.
    pub fn bitrate(self) -> (r: u32)
        ensures
            r == self.target(),
    {
        match self {
            Profile::Minimum => 16_000,
            _ => 24_000,
        }
    }

    /// Whether silence is left unsent.
    pub fn dtx(self) -> (r: bool)
        ensures
            r == (self != Profile::Standard),
    {
        self != Profile::Standard
    }

    /// The profile's name on screen.
    pub fn label(self) -> (r: &'static str)
        ensures
            r@ == (match self {
                Profile::Standard => "Original · 24k · 20 ms"@,
                Profile::Efficient => "Efficient · 24k · 40 ms"@,
                Profile::Minimum => "Minimum · 16k · 60 ms"@,
            }),
    {
        match self {
            Profile::Standard => "Original · 24k · 20 ms",
            Profile::Efficient => "Efficient · 24k · 40 ms",
            Profile::Minimum => "Minimum · 16k · 60 ms",
        }
    }
}

/// Where sound comes from.
#[derive(Clone, Copy, Debug, PartialEq, Eq, Structural)]
pub enum Source {
    Tone,
    Mic,
    /// Silence, to measure bandwidth without a microphone.
    Silence,
}

/// Where sound goes to.
#[derive(Clone, Copy, Debug, PartialEq, Eq, Structural)]
pub enum Sink {
    Null,
    Speaker,
}

/// An audio device: its name, where it has one, and whether it can record and play.
#[derive(Clone, Debug)]
pub struct DeviceInfo {
    pub name: Option<String>,
    pub input: bool,
    pub output: bool,
}

impl DeviceInfo {
    /// Whether a device has the name and can do what is asked for.
    pub open spec fn suits(self, input: bool, name: Seq<char>) -> bool {
        &&& self.name matches Some(own) && own@ == name
        &&& if input {
            self.input
        } else {
            self.output
        }
    }
}

/// The first device with a name that can record, or play.
pub fn find_device(devices: &Vec<DeviceInfo>, input: bool, name: &str) -> (r: Option<usize>)
    ensures
        match r {
            Some(found) => {
                &&& found < devices@.len()
                &&& devices@[found as int].suits(input, name@)
                &&& forall|k: int| 0 <= k < found ==> !(#[trigger] devices@[k]).suits(input, name@)
            },
            None => forall|k: int|
                0 <= k < devices@.len() ==> !(#[trigger] devices@[k]).suits(input, name@),
        },
{
    let mut i: usize = 0;
    while i < devices.len()
        invariant
            i <= devices@.len(),
            forall|k: int| 0 <= k < i ==> !(#[trigger] devices@[k]).suits(input, name@),
        decreases devices@.len() - i,
    {
        let device = &devices[i];
        let named = match &device.name {
            Some(own) => text::same_text(own.as_str(), name),
            None => false,
        };
        let able = if input {
            device.input
        } else {
            device.output
        };
        if named && able {
            return Some(i);
        }
        i += 1;
    }
    None
}

/// How many samples the playback queue is made for: more than the common playout delay of sound
/// and pictures, so that a device may ask for many samples at once.
pub fn playback_capacity(output_rate: u32, synchronized_video: bool) -> (r: usize)
    requires
        output_rate * (if synchronized_video {
            240int
        } else {
            200
        }) <= u32::MAX,
    ensures
        r == output_rate * (if synchronized_video {
            240int
        } else {
            200
        }) / 1000,
{
    if synchronized_video {
        (output_rate * 240 / 1000) as usize
    } else {
        (output_rate * 200 / 1000) as usize
    }
}

/// Puts a recorded sample into the queue to the encoder.
pub fn capture_sample(queue: &mut SampleQueue, value: u32, metrics: &mut Metrics)
    ensures
        final(queue)@ == SampleQueue::pushed(old(queue)@, old(queue).limit(), (value, 0)),
        final(queue).limit() == old(queue).limit(),
        *final(metrics) == (Metrics {
            captured_samples: old(metrics).captured_samples.wrapping_add(1),
            capture_dropped: if old(queue)@.len() >= old(queue).limit() {
                old(metrics).capture_dropped.wrapping_add(1)
            } else {
                old(metrics).capture_dropped
            },
            ..*old(metrics)
        }),
{
    crate::metrics::add(&mut metrics.captured_samples, 1);
    if queue.push((value, 0)) {
        crate::metrics::add(&mut metrics.capture_dropped, 1);
    }
}

/// The larger of two numbers.
pub open spec fn larger(a: u64, b: u64) -> u64 {
    if a < b {
        b
    } else {
        a
    }
}

/// Notes how full the queue to the encoder is at the end of a recording callback.
pub fn note_capture(queue: &SampleQueue, metrics: &mut Metrics)
    ensures
        *final(metrics) == (Metrics {
            capture_peak: larger(old(metrics).capture_peak, queue@.len() as u64),
            ..*old(metrics)
        }),
{
    let length: usize = queue.len();
    crate::metrics::raise(&mut metrics.capture_peak, length as u64);
}

/// A sample to be played: the bit pattern of its value, and when.
#[derive(Clone, Copy, Debug, PartialEq, Eq, Structural)]
pub struct PlaybackSample {
    pub value: u32,
    pub play_at_us: u64,
}

/// Holds a stream of samples back until the presentation time of its first one. After that the
/// clock of the device sets the pace.
#[derive(Clone, Copy, Debug, PartialEq, Eq, Structural)]
pub struct PlaybackClock {
    pub started: bool,
}

impl PlaybackClock {
    /// A stream that has not begun.
    pub fn new() -> (r: Self)
        ensures
            !r.started,
    {
        PlaybackClock { started: false }
    }

    /// Whether a sample with the given presentation time is played when the device is at the
    /// other.
    pub fn ready(&mut self, presentation_us: u64, hardware_us: u64) -> (r: bool)
        ensures
            r == (old(self).started || presentation_us <= hardware_us),
            final(self).started == r,
    {
        if !self.started && presentation_us > hardware_us {
            return false;
        }
        self.started = true;
        true
    }
}

/// What the playing side remembers from one callback to the next, with the queue and the two
/// counters that it moves.
#[verifier::ext_equal]
pub struct PlaybackModel {
    pub ready: bool,
    pub ever_started: bool,
    pub started: bool,
    pub pending: Option<(u32, u64)>,
    pub items: Seq<(u32, u64)>,
    pub late: u64,
    pub missing: u64,
}

/// When the device plays a sample of a callback.
pub open spec fn due(callback_time: int, index: int, rate: int) -> int {
    callback_time + index * 1_000_000 / rate
}

impl PlaybackModel {
    /// The samples that wait to be played.
    pub open spec fn waiting(self) -> Seq<(u32, u64)> {
        match self.pending {
            Some(sample) => seq![sample] + self.items,
            None => self.items,
        }
    }

    /// The state without the next sample.
    pub open spec fn taken(self) -> PlaybackModel {
        match self.pending {
            Some(_) => PlaybackModel { pending: None, ..self },
            None => PlaybackModel { items: self.items.drop_first(), ..self },
        }
    }

    /// The number of samples that were missing, one more where there was sound before.
    pub open spec fn missed(self) -> u64 {
        if self.ever_started {
            self.missing.wrapping_add(1)
        } else {
            self.missing
        }
    }

    /// The state after the device has played one sample at the given time, and the sample that
    /// it played; none stands for silence.
    pub open spec fn played(self, at: int) -> (PlaybackModel, Option<(u32, u64)>) {
        if !self.ready {
            (PlaybackModel { missing: self.missed(), ..self }, None)
        } else if self.waiting().len() == 0 {
            (
                PlaybackModel { ready: false, started: false, missing: self.missed(), ..self },
                None,
            )
        } else {
            let sample = self.waiting()[0];
            if !self.started && sample.1 > at {
                (PlaybackModel { pending: Some(sample), ..self.taken() }, None)
            } else {
                (
                    PlaybackModel {
                        started: true,
                        late: if sample.1 > 0 && at - sample.1 > 20_000 {
                            self.late.wrapping_add(1)
                        } else {
                            self.late
                        },
                        ..self.taken()
                    },
                    Some(sample),
                )
            }
        }
    }

    /// The state after a callback has been given a number of samples.
    pub open spec fn after(self, callback_time: int, rate: int, frames: nat) -> PlaybackModel
        decreases frames,
    {
        if frames == 0 {
            self
        } else {
            self.after(callback_time, rate, (frames - 1) as nat).played(
                due(callback_time, frames - 1, rate),
            ).0
        }
    }

    /// What the device plays at one place of a callback.
    pub open spec fn output(self, callback_time: int, rate: int, index: int) -> Option<(u32, u64)> {
        self.after(callback_time, rate, index as nat).played(due(callback_time, index, rate)).1
    }

    /// The samples that a callback has been given, in order, without the silence between them.
    pub open spec fn heard(self, callback_time: int, rate: int, frames: nat) -> Seq<(u32, u64)>
        decreases frames,
    {
        if frames == 0 {
            seq![]
        } else {
            let before = self.heard(callback_time, rate, (frames - 1) as nat);
            match self.output(callback_time, rate, frames - 1) {
                Some(sample) => before.push(sample),
                None => before,
            }
        }
    }
}

/// The bit pattern that a sample, or silence, is played as.
pub open spec fn pattern_of(sample: Option<(u32, u64)>) -> u32 {
    match sample {
        Some((value, _)) => value,
        None => 0,
    }
}

/// How many samples must wait before playing begins: 40 ms, or the longer of a received packet
/// and what the device asks for at once, with 20 ms to spare.
pub open spec fn reserve(rate: int, packet_samples: int, frames: int) -> int {
    let packet = packet_samples * rate / 48_000;
    let longer = (if packet < frames {
        frames
    } else {
        packet
    }) + rate / 50;
    if rate / 25 < longer {
        longer
    } else {
        rate / 25
    }
}

/// The playing side of a device.
pub struct Playback {
    pub ready: bool,
    pub ever_started: bool,
    pub clock: PlaybackClock,
    pub pending: Option<PlaybackSample>,
    pub sample_rate: u32,
}

impl Playback {
    /// The state of the playing side with its queue and counters.
    pub open spec fn model(self, queue: SampleQueue, metrics: Metrics) -> PlaybackModel {
        PlaybackModel {
            ready: self.ready,
            ever_started: self.ever_started,
            started: self.clock.started,
            pending: match self.pending {
                Some(sample) => Some((sample.value, sample.play_at_us)),
                None => None,
            },
            items: queue@,
            late: metrics.audio_late_samples,
            missing: metrics.playback_missing,
        }
    }

    /// The state once a callback has looked whether enough samples wait.
    pub open spec fn prepared(self, queue: SampleQueue, metrics: Metrics, frames: int) -> PlaybackModel {
        let model = self.model(queue, metrics);
        let needed = reserve(self.sample_rate as int, metrics.rx_packet_samples as int, frames);
        let enough = queue@.len() >= (if needed < queue.limit() {
            needed
        } else {
            queue.limit() as int
        });
        if !self.ready && enough {
            PlaybackModel { ready: true, ever_started: true, ..model }
        } else {
            model
        }
    }

    /// A device that has played nothing.
    pub fn new(sample_rate: u32) -> (r: Self)
        ensures
            r == (Playback {
                ready: false,
                ever_started: false,
                clock: PlaybackClock { started: false },
                pending: None,
                sample_rate,
            }),
    {
        Playback {
            ready: false,
            ever_started: false,
            clock: PlaybackClock::new(),
            pending: None,
            sample_rate,
        }
    }

    /// Begins to play where enough samples wait.
    fn prepare(&mut self, queue: &SampleQueue, frames: usize, metrics: &Metrics)
        requires
            old(self).sample_rate > 0,
            (frames - 1) * 1_000_000 <= u64::MAX,
            metrics.rx_packet_samples * old(self).sample_rate <= u64::MAX,
        ensures
            final(self).model(*queue, *metrics) == old(self).prepared(
                *queue,
                *metrics,
                frames as int,
            ),
            final(self).sample_rate == old(self).sample_rate,
    {
        let rate: u64 = self.sample_rate as u64;
        let packet: u64 = metrics.rx_packet_samples * rate / 48_000;
        let asked: u64 = frames as u64;
        let longer: u64 = (if packet < asked {
            asked
        } else {
            packet
        }) + rate / 50;
        let needed: u64 = if rate / 25 < longer {
            longer
        } else {
            rate / 25
        };
        let capacity: u64 = queue.capacity() as u64;
        let least: u64 = if needed < capacity {
            needed
        } else {
            capacity
        };
        if !self.ready && queue.len() as u64 >= least {
            self.ready = true;
            self.ever_started = true;
        }
    }

    /// Plays one sample.
    fn next(&mut self, queue: &mut SampleQueue, at: u64, metrics: &mut Metrics) -> (r: u32)
        ensures
            final(self).model(*final(queue), *final(metrics)) == old(self).model(
                *old(queue),
                *old(metrics),
            ).played(at as int).0,
            r == pattern_of(old(self).model(*old(queue), *old(metrics)).played(at as int).1),
            final(self).sample_rate == old(self).sample_rate,
            final(queue).limit() == old(queue).limit(),
            *final(metrics) == (Metrics {
                audio_late_samples: final(metrics).audio_late_samples,
                playback_missing: final(metrics).playback_missing,
                ..*old(metrics)
            }),
    {
        let ghost before = self.model(*queue, *metrics);
        if !self.ready {
            if self.ever_started {
                crate::metrics::add(&mut metrics.playback_missing, 1);
            }
            assert(self.model(*queue, *metrics) =~= before.played(at as int).0);
            return 0;
        }
        let sample = match self.pending {
            Some(sample) => Some(sample),
            None => match queue.pop() {
                Some((value, play_at_us)) => Some(PlaybackSample { value, play_at_us }),
                None => None,
            },
        };
        self.pending = None;
        match sample {
            Some(sample) => {
                if !self.clock.ready(sample.play_at_us, at) {
                    self.pending = Some(sample);
                    assert(self.model(*queue, *metrics) =~= before.played(at as int).0);
                    return 0;
                }
                if sample.play_at_us > 0 && at.saturating_sub(sample.play_at_us) > 20_000 {
                    crate::metrics::add(&mut metrics.audio_late_samples, 1);
                }
                assert(self.model(*queue, *metrics) =~= before.played(at as int).0);
                sample.value
            },
            None => {
                self.ready = false;
                self.clock = PlaybackClock::new();
                if self.ever_started {
                    crate::metrics::add(&mut metrics.playback_missing, 1);
                }
                assert(self.model(*queue, *metrics) =~= before.played(at as int).0);
                0
            },
        }
    }

    /// One callback of the device: gives it the bit patterns of as many samples as it asks for.
    /// The first of them is heard `hardware_offset` microseconds from now.
    pub fn fill(
        &mut self,
        queue: &mut SampleQueue,
        frames: usize,
        now: u64,
        hardware_offset: u64,
        metrics: &mut Metrics,
    ) -> (r: Vec<u32>)
        requires
            old(self).sample_rate > 0,
            (frames - 1) * 1_000_000 <= u64::MAX,
            now + hardware_offset <= u64::MAX,
            frames > 0 ==> due(
                now + hardware_offset,
                frames - 1,
                old(self).sample_rate as int,
            ) <= u64::MAX,
            old(metrics).rx_packet_samples * old(self).sample_rate <= u64::MAX,
        ensures
            ({
                let start = old(self).prepared(*old(queue), *old(metrics), frames as int);
                let time = now + hardware_offset;
                let rate = old(self).sample_rate as int;
                &&& final(self).model(*final(queue), *final(metrics)) == start.after(
                    time,
                    rate,
                    frames as nat,
                )
                &&& r@ == Seq::new(
                    frames as nat,
                    |i: int| pattern_of(start.output(time, rate, i)),
                )
            }),
            final(self).sample_rate == old(self).sample_rate,
            final(queue).limit() == old(queue).limit(),
            *final(metrics) == (Metrics {
                playback_callback_peak: larger(old(metrics).playback_callback_peak, frames as u64),
                playback_lead_peak: larger(old(metrics).playback_lead_peak, hardware_offset),
                audio_late_samples: final(metrics).audio_late_samples,
                playback_missing: final(metrics).playback_missing,
                ..*old(metrics)
            }),
    {
        crate::metrics::raise(&mut metrics.playback_callback_peak, frames as u64);
        crate::metrics::raise(&mut metrics.playback_lead_peak, hardware_offset);
        let ghost peaks = *metrics;
        let time: u64 = now + hardware_offset;
        let rate: u64 = self.sample_rate as u64;
        let ghost start = self.prepared(*queue, *metrics, frames as int);
        self.prepare(queue, frames, metrics);
        let mut values: Vec<u32> = Vec::new();
        let mut index: usize = 0;
        while index < frames
            invariant
                index <= frames,
                rate > 0,
                rate == self.sample_rate,
                self.sample_rate == old(self).sample_rate,
                time == now + hardware_offset,
                (frames - 1) * 1_000_000 <= u64::MAX,
                frames > 0 ==> due(time as int, frames - 1, rate as int) <= u64::MAX,
                start == old(self).prepared(*old(queue), *old(metrics), frames as int),
                self.model(*queue, *metrics) == start.after(time as int, rate as int, index as nat),
                queue.limit() == old(queue).limit(),
                values@.len() == index,
                forall|k: int|
                    0 <= k < index ==> #[trigger] values@[k] == pattern_of(
                        start.output(time as int, rate as int, k),
                    ),
                *metrics == (Metrics {
                    audio_late_samples: metrics.audio_late_samples,
                    playback_missing: metrics.playback_missing,
                    ..peaks
                }),
            decreases frames - index,
        {
            proof {
                vstd::arithmetic::div_mod::lemma_div_is_ordered(
                    index * 1_000_000,
                    (frames - 1) * 1_000_000,
                    rate as int,
                );
            }
            let passed: u64 = index as u64 * 1_000_000;
            let at: u64 = time + passed / rate;
            values.push(self.next(queue, at, metrics));
            index += 1;
        }
        assert(values@ =~= Seq::new(
            frames as nat,
            |i: int| pattern_of(start.output(time as int, rate as int, i)),
        ));
        values
    }
}

/// One step loses no sample and changes no order.
proof fn lemma_played(state: PlaybackModel, at: int)
    ensures
        ({
            let (after, sample) = state.played(at);
            match sample {
                Some(sample) => state.waiting() == seq![sample] + after.waiting(),
                None => state.waiting() == after.waiting(),
            }
        }),
{
    let (after, sample) = state.played(at);
    match sample {
        Some(sample) => {
            assert(state.waiting() =~= seq![sample] + after.waiting());
        },
        None => {
            assert(state.waiting() =~= after.waiting());
        },
    }
}

/// What a callback plays, and what waits after it, is together what waited before: no sample is
/// lost, repeated or moved.
pub proof fn law_playback_keeps_order(
    start: PlaybackModel,
    callback_time: int,
    rate: int,
    frames: nat,
)
    ensures
        start.waiting() == start.heard(callback_time, rate, frames) + start.after(
            callback_time,
            rate,
            frames,
        ).waiting(),
    decreases frames,
{
    if frames == 0 {
        assert(start.heard(callback_time, rate, 0) + start.waiting() =~= start.waiting());
    } else {
        let count = (frames - 1) as nat;
        law_playback_keeps_order(start, callback_time, rate, count);
        let before = start.after(callback_time, rate, count);
        lemma_played(before, due(callback_time, frames - 1, rate));
        assert(start.heard(callback_time, rate, count) + before.waiting() =~= start.heard(
            callback_time,
            rate,
            frames,
        ) + start.after(callback_time, rate, frames).waiting());
    }
}

/// Until enough samples wait, a callback plays silence alone and takes nothing.
pub proof fn law_silence_until_ready(
    start: PlaybackModel,
    callback_time: int,
    rate: int,
    frames: nat,
)
    requires
        !start.ready,
    ensures
        start.heard(callback_time, rate, frames) == Seq::<(u32, u64)>::empty(),
        !start.after(callback_time, rate, frames).ready,
        start.after(callback_time, rate, frames).waiting() == start.waiting(),
    decreases frames,
{
    if frames > 0 {
        law_silence_until_ready(start, callback_time, rate, (frames - 1) as nat);
    }
}

/// A stream that has begun plays without a gap, whatever the presentation times of its samples,
/// for as long as samples wait.
pub proof fn law_no_silence_within_stream(
    start: PlaybackModel,
    callback_time: int,
    rate: int,
    frames: nat,
)
    requires
        start.ready,
        start.started,
        frames <= start.waiting().len(),
    ensures
        start.heard(callback_time, rate, frames) == start.waiting().take(frames as int),
        start.after(callback_time, rate, frames).started,
        start.after(callback_time, rate, frames).ready,
        start.after(callback_time, rate, frames).missing == start.missing,
    decreases frames,
{
    if frames == 0 {
        assert(start.waiting().take(0) =~= seq![]);
    } else {
        let count = (frames - 1) as nat;
        law_no_silence_within_stream(start, callback_time, rate, count);
        law_playback_keeps_order(start, callback_time, rate, count);
        let before = start.after(callback_time, rate, count);
        lemma_played(before, due(callback_time, frames - 1, rate));
        assert(before.waiting()[0] == start.waiting()[count as int]);
        assert(start.waiting().take(frames as int) =~= start.waiting().take(count as int).push(
            start.waiting()[count as int],
        ));
    }
}

/// After an underrun nothing is played until enough samples wait again, and the next stream is
/// held back to its presentation time.
pub proof fn law_underrun_starts_anew(state: PlaybackModel, at: int)
    requires
        state.ready,
        state.waiting().len() == 0,
    ensures
        state.played(at).1 is None,
        !state.played(at).0.ready,
        !state.played(at).0.started,
{
}

/// A callback that finds as many samples as it asks for misses none.
proof fn lemma_enough(start: PlaybackModel, callback_time: int, rate: int, frames: nat)
    requires
        start.ready,
        frames <= start.waiting().len(),
    ensures
        start.after(callback_time, rate, frames).ready,
        start.after(callback_time, rate, frames).missing == start.missing,
        start.after(callback_time, rate, frames).waiting().len() + frames
            >= start.waiting().len(),
    decreases frames,
{
    if frames > 0 {
        let count = (frames - 1) as nat;
        lemma_enough(start, callback_time, rate, count);
        lemma_played(
            start.after(callback_time, rate, count),
            due(callback_time, frames - 1, rate),
        );
    }
}

/// Playing does not begin with a callback that would run out of samples: where the queue can hold
/// the reserve, the callback in which playing begins misses none.
pub proof fn law_reserve_prevents_underrun(
    playback: Playback,
    queue: SampleQueue,
    metrics: Metrics,
    frames: nat,
    callback_time: int,
)
    requires
        !playback.ready,
        playback.sample_rate > 0,
        playback.prepared(queue, metrics, frames as int).ready,
        reserve(
            playback.sample_rate as int,
            metrics.rx_packet_samples as int,
            frames as int,
        ) <= queue.limit(),
    ensures
        ({
            let start = playback.prepared(queue, metrics, frames as int);
            let after = start.after(callback_time, playback.sample_rate as int, frames);
            after.ready && after.missing == metrics.playback_missing
        }),
{
    let start = playback.prepared(queue, metrics, frames as int);
    assert(start.waiting().len() >= queue@.len());
    lemma_enough(start, callback_time, playback.sample_rate as int, frames);
}

/// How many samples the playback queue is made for: without a loudspeaker nothing is played.
pub fn queue_size(sink: Sink, output_rate: u32, synchronized_video: bool) -> (r: usize)
    requires
        output_rate * (if synchronized_video {
            240int
        } else {
            200
        }) <= u32::MAX,
    ensures
        r == (if sink == Sink::Null {
            CAPACITY as int
        } else {
            output_rate * (if synchronized_video {
                240int
            } else {
                200
            }) / 1000
        }),
{
    if sink == Sink::Null {
        CAPACITY
    } else {
        playback_capacity(output_rate, synchronized_video)
    }
}

/// When playing begins: as soon as so many samples wait that the queue holds no more, or that they last
/// for 40 ms, for what the device asks for at once and 20 ms more, and for a packet as it was received
/// and 20 ms more. Whether playing has begun is all that is decided before a callback.
pub proof fn law_when_playing_begins(
    playback: Playback,
    queue: SampleQueue,
    metrics: Metrics,
    frames: int,
)
    requires
        playback.sample_rate > 0,
        frames >= 0,
    ensures
        ({
            let rate = playback.sample_rate as int;
            let waiting = queue@.len() as int;
            let before = playback.model(queue, metrics);
            let after = playback.prepared(queue, metrics, frames);
            let full = waiting >= queue.limit();
            let enough = waiting >= rate / 25 && waiting >= frames + rate / 50 && waiting
                >= metrics.rx_packet_samples * rate / 48_000 + rate / 50;
            &&& after.ready <==> playback.ready || full || enough
            &&& after.ever_started <==> playback.ever_started || (!playback.ready && (full
                || enough))
            &&& after.waiting() == before.waiting()
            &&& after.started == before.started
            &&& after.late == before.late
            &&& after.missing == before.missing
        }),
{
}

/// Silence is the pattern of zero, and a sample is played as it is.
pub proof fn law_samples_are_played_as_they_are(sample: (u32, u64))
    ensures
        pattern_of(Some(sample)) == sample.0,
        pattern_of(None) == 0,
{
}

/// A stream that is to begin is held back to the presentation time of its first sample: all places of
/// a callback that the device plays before that time are silent, and none of them counts as missing;
/// from the first place at or after it on the samples are played, one after the other.
pub proof fn law_stream_begins_on_time(
    start: PlaybackModel,
    callback_time: int,
    rate: int,
    first: nat,
    frames: nat,
)
    requires
        start.ready,
        !start.started,
        start.waiting().len() > 0,
        frames - first <= start.waiting().len(),
        forall|i: int|
            0 <= i < first ==> callback_time + #[trigger] (i * 1_000_000) / rate
                < start.waiting()[0].1,
        callback_time + (first * 1_000_000) as int / rate >= start.waiting()[0].1,
    ensures
        frames <= first ==> {
            &&& start.heard(callback_time, rate, frames) == Seq::<(u32, u64)>::empty()
            &&& start.after(callback_time, rate, frames).waiting() == start.waiting()
            &&& !start.after(callback_time, rate, frames).started
        },
        frames > first ==> {
            &&& start.heard(callback_time, rate, frames) == start.waiting().take(frames - first)
            &&& start.after(callback_time, rate, frames).started
        },
        start.after(callback_time, rate, frames).ready,
        start.after(callback_time, rate, frames).missing == start.missing,
    decreases frames,
{
    if frames > 0 {
        let count = (frames - 1) as nat;
        let at = due(callback_time, frames - 1, rate);
        law_stream_begins_on_time(start, callback_time, rate, first, count);
        law_playback_keeps_order(start, callback_time, rate, count);
        let before = start.after(callback_time, rate, count);
        lemma_played(before, at);
        if frames <= first {
            let i = frames - 1;
            assert(callback_time + (i * 1_000_000) / rate < start.waiting()[0].1);
        } else {
            let place = frames - 1 - first;
            assert(before.waiting()[0] == start.waiting()[place]);
            if place == 0 {
                assert(at >= start.waiting()[0].1);
                assert(start.waiting().take(1) =~= seq![start.waiting()[0]]);
            } else {
                assert(start.waiting().take(frames - first) =~= start.waiting().take(place).push(
                    start.waiting()[place],
                ));
            }
        }
    }
}

/// A stream that runs out of samples plays all of them, and the rest of the callback is silent; every
/// silent place counts as missing, and then enough samples must wait again.
pub proof fn law_missing_samples_are_counted(
    start: PlaybackModel,
    callback_time: int,
    rate: int,
    frames: nat,
)
    requires
        start.ready,
        start.started,
        start.ever_started,
        frames >= start.waiting().len(),
        start.missing + frames <= u64::MAX,
    ensures
        ({
            let after = start.after(callback_time, rate, frames);
            &&& start.heard(callback_time, rate, frames) == start.waiting()
            &&& after.missing == start.missing + (frames - start.waiting().len())
            &&& after.waiting().len() == 0
            &&& frames == start.waiting().len() ==> after.ready
            &&& frames > start.waiting().len() ==> !after.ready && !after.started
            &&& after.ever_started
        }),
    decreases frames,
{
    let length = start.waiting().len();
    if frames == length {
        law_no_silence_within_stream(start, callback_time, rate, frames);
        law_playback_keeps_order(start, callback_time, rate, frames);
        lemma_ever_started(start, callback_time, rate, frames);
        assert(start.waiting().take(frames as int) =~= start.waiting());
        let after = start.after(callback_time, rate, frames);
        assert(start.waiting().len() == start.heard(callback_time, rate, frames).len()
            + after.waiting().len());
    } else {
        law_missing_samples_are_counted(start, callback_time, rate, (frames - 1) as nat);
        lemma_played(
            start.after(callback_time, rate, (frames - 1) as nat),
            due(callback_time, frames - 1, rate),
        );
        law_playback_keeps_order(start, callback_time, rate, (frames - 1) as nat);
    }
}

proof fn lemma_ever_started(
    start: PlaybackModel,
    callback_time: int,
    rate: int,
    frames: nat,
)
    ensures
        start.after(callback_time, rate, frames).ever_started == start.ever_started,
    decreases frames,
{
    if frames > 0 {
        lemma_ever_started(start, callback_time, rate, (frames - 1) as nat);
    }
}

/// While too few samples wait, every place of a callback counts as missing if there was sound before,
/// and none if there was not.
pub proof fn law_silence_counts_after_sound(
    start: PlaybackModel,
    callback_time: int,
    rate: int,
    frames: nat,
)
    requires
        !start.ready,
        start.missing + frames <= u64::MAX,
    ensures
        start.after(callback_time, rate, frames).missing == start.missing + (
        if start.ever_started {
            frames as int
        } else {
            0
        }),
    decreases frames,
{
    if frames > 0 {
        let count = (frames - 1) as nat;
        law_silence_counts_after_sound(start, callback_time, rate, count);
        law_silence_until_ready(start, callback_time, rate, count);
        lemma_ever_started(start, callback_time, rate, count);
    }
}

/// Whether a sample is played more than 20 ms after its presentation time, if it has one.
pub open spec fn is_late(sample: (u32, u64), at: int) -> bool {
    sample.1 > 0 && at > sample.1 + 20 * 1_000
}

/// How many samples of a callback are late.
pub open spec fn late_count(
    start: PlaybackModel,
    callback_time: int,
    rate: int,
    frames: nat,
) -> nat
    decreases frames,
{
    if frames == 0 {
        0
    } else {
        let before = late_count(start, callback_time, rate, (frames - 1) as nat);
        match start.output(callback_time, rate, frames - 1) {
            Some(sample) if is_late(
                sample,
                callback_time + (frames - 1) * 1_000_000 / rate,
            ) => before + 1,
            _ => before,
        }
    }
}

/// A callback counts every sample that it plays late, once.
pub proof fn law_late_samples_are_counted(
    start: PlaybackModel,
    callback_time: int,
    rate: int,
    frames: nat,
)
    requires
        start.late + frames <= u64::MAX,
    ensures
        start.after(callback_time, rate, frames).late == start.late + late_count(
            start,
            callback_time,
            rate,
            frames,
        ),
        late_count(start, callback_time, rate, frames) <= frames,
    decreases frames,
{
    if frames > 0 {
        law_late_samples_are_counted(start, callback_time, rate, (frames - 1) as nat);
    }
}

/// A profile with longer packets never sends more bits or more packets per second, every packet lasts
/// for a whole number of 20 ms frames, for 60 ms at most, and only the shortest packets are sent in
/// silence as in sound.
pub proof fn law_profiles_trade_bandwidth_for_delay(a: Profile, b: Profile)
    ensures
        a.duration() < b.duration() ==> a.target() >= b.target(),
        a.duration() == b.duration() <==> a == b,
        a.duration() % 20 == 0 && 20 <= a.duration() <= 60,
        a.duration() == 20 <==> a == Profile::Standard,
        a.duration() == 60 <==> a.target() < 24_000,
{
}

} // verus!
