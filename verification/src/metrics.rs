//! Counters and duration histograms of a call.
use crate::double;
use crate::double::Double;
use vstd::prelude::*;

verus! {

/// Adds to a counter, which wraps around at its end.
pub fn add(value: &mut u64, n: usize)
    ensures
        *final(value) == (*old(value)).wrapping_add(n as u64),
{
    *value = value.wrapping_add(n as u64);
}

/// Reads a counter.
pub fn get(value: &u64) -> (r: u64)
    ensures
        r == *value,
{
    *value
}

/// Keeps the larger of a counter and a measurement.
pub fn raise(value: &mut u64, n: u64)
    ensures
        *final(value) == (if *old(value) < n {
            n
        } else {
            *old(value)
        }),
{
    if *value < n {
        *value = n;
    }
}

/// How many binary digits a number has; none for zero.
pub open spec fn binary_digits(value: nat) -> nat
    decreases value,
{
    if value == 0 {
        0
    } else {
        1 + binary_digits(value / 2)
    }
}

/// The histogram bin of a duration: its number of binary digits, and the last bin for all that
/// are longer.
pub open spec fn bin_of(micros: u64) -> int {
    if binary_digits(micros as nat) < 31 {
        binary_digits(micros as nat) as int
    } else {
        31
    }
}

/// The largest duration of a bin but the last.
pub open spec fn upper_bound(bin: int) -> nat
    decreases bin,
{
    if bin <= 0 {
        0
    } else {
        2 * upper_bound(bin - 1) + 1
    }
}

/// The bins once a duration more has been counted.
pub open spec fn recorded(bins: Seq<u64>, micros: u64) -> Seq<u64> {
    bins.update(bin_of(micros), bins[bin_of(micros)].wrapping_add(1))
}

/// The sum of the bins.
pub open spec fn total(bins: Seq<u64>) -> nat
    decreases bins.len(),
{
    if bins.len() == 0 {
        0
    } else {
        total(bins.drop_last()) + bins.last() as nat
    }
}

/// The bin in which the measurement with the given rank stands, counting from one.
pub open spec fn rank_bin(bins: Seq<u64>, rank: nat) -> int
    decreases bins.len(),
{
    if bins.len() == 0 {
        0
    } else if total(bins.drop_last()) >= rank {
        rank_bin(bins.drop_last(), rank)
    } else {
        bins.len() - 1
    }
}

/// The upper bound of the bin in which the measurement with the given rank stands.
pub open spec fn quantile(bins: Seq<u64>, rank: nat) -> Option<u64> {
    if total(bins) == 0 {
        None
    } else {
        Some(upper_bound(rank_bin(bins, rank)) as u64)
    }
}

/// The half of a count, rounded up. The count is rounded to 53 binary digits first.
pub open spec fn half(count: nat) -> nat {
    (double::rounded(count) + 1) / 2
}

/// The number 0.95 of 53 binary digits, in units of which one is a 2^53rd part.
pub const MOST: u64 = 0x1e_6666_6666_6666;

/// 0.95 times a count, rounded up. The count and the product are rounded to 53 binary digits first.
pub open spec fn most(count: nat) -> nat {
    ((double::rounded(double::rounded(count) * MOST as nat) + 0x1f_ffff_ffff_ffff)
        / 0x20_0000_0000_0000) as nat
}

/// The ranks of the two percentiles are ranks of measurements, in their order.
proof fn lemma_ranks(count: nat)
    requires
        1 <= count <= u64::MAX,
    ensures
        1 <= half(count) <= most(count) <= count,
{
    let whole = double::rounded(count);
    let product = whole * MOST as nat;
    double::lemma_rounded(count);
    double::lemma_rounded(product);
    let part = double::rounded(product);
    assert(product == whole * 0x1e_6666_6666_6666);
    assert(whole >= 1);
    assert(part >= whole * 0x10_0000_0000_0000);
    assert(part <= count * 0x20_0000_0000_0000);
}

/// What a histogram reports: how many measurements, and upper bounds of the median and of the
/// 95th percentile.
pub open spec fn snapshot_of(bins: Seq<u64>) -> TimingSnapshot {
    TimingSnapshot {
        samples: total(bins) as u64,
        p50_upper_us: quantile(bins, half(total(bins))),
        p95_upper_us: quantile(bins, most(total(bins))),
    }
}

/// What a histogram reports.
#[derive(Clone, Copy, Debug, PartialEq, Eq, Structural)]
pub struct TimingSnapshot {
    pub samples: u64,
    pub p50_upper_us: Option<u64>,
    pub p95_upper_us: Option<u64>,
}

/// A histogram of durations. Its size does not depend on how many it has recorded.
pub struct Timing {
    bins: [u64; 32],
}

impl View for Timing {
    type V = Seq<u64>;

    closed spec fn view(&self) -> Seq<u64> {
        self.bins@
    }
}

/// A larger bin makes a larger sum.
proof fn lemma_total_update(bins: Seq<u64>, i: int, value: u64)
    requires
        0 <= i < bins.len(),
    ensures
        total(bins.update(i, value)) == total(bins) - bins[i] + value,
    decreases bins.len(),
{
    let front = bins.drop_last();
    if i == bins.len() - 1 {
        assert(bins.update(i, value).drop_last() =~= front);
    } else {
        assert(bins.update(i, value).drop_last() =~= front.update(i, value));
        lemma_total_update(front, i, value);
    }
}

/// The bins in front sum up to no more than all.
proof fn lemma_total_front(bins: Seq<u64>, length: int)
    requires
        0 <= length <= bins.len(),
    ensures
        total(bins.take(length)) <= total(bins),
    decreases bins.len() - length,
{
    if length == bins.len() {
        assert(bins.take(length) =~= bins);
    } else {
        assert(bins.take(length + 1).drop_last() =~= bins.take(length));
        lemma_total_front(bins, length + 1);
    }
}

/// Where the sum first reaches the rank is the bin of the rank.
proof fn lemma_rank_bin_is(bins: Seq<u64>, rank: nat, i: int)
    requires
        0 <= i < bins.len(),
        total(bins.take(i)) < rank <= total(bins.take(i + 1)),
    ensures
        rank_bin(bins, rank) == i,
    decreases bins.len(),
{
    let front = bins.drop_last();
    if i == bins.len() - 1 {
        assert(bins.take(i) =~= front);
    } else {
        assert(bins.take(i + 1) =~= front.take(i + 1));
        assert(bins.take(i) =~= front.take(i));
        lemma_total_front(front, i + 1);
        lemma_rank_bin_is(front, rank, i);
    }
}

proof fn lemma_total_zero(bins: Seq<u64>)
    requires
        forall|i: int| 0 <= i < bins.len() ==> bins[i] == 0,
    ensures
        total(bins) == 0,
    decreases bins.len(),
{
    if bins.len() > 0 {
        lemma_total_zero(bins.drop_last());
    }
}

impl Timing {
    /// The sum of the bins is one that a counter can hold.
    pub open spec fn wf(self) -> bool {
        total(self@) <= u64::MAX
    }

    /// The bins of a histogram that has recorded nothing.
    pub open spec fn empty() -> Seq<u64> {
        Seq::new(32, |i: int| 0u64)
    }

    /// A histogram that has recorded nothing.
    pub fn new() -> (r: Self)
        ensures
            r.wf(),
            r@ == Timing::empty(),
    {
        let r = Timing { bins: [0; 32] };
        proof {
            assert(r@ =~= Timing::empty());
            lemma_total_zero(r@);
        }
        r
    }

    /// Counts one duration. A bin wraps around at its end.
    pub fn record(&mut self, micros: u64)
        ensures
            final(self)@ == recorded(old(self)@, micros),
            total(old(self)@) < u64::MAX ==> total(final(self)@) == total(old(self)@) + 1,
    {
        let mut rest: u64 = micros;
        let mut bin: usize = 0;
        while rest > 0 && bin < 31
            invariant
                bin <= 31,
                bin + binary_digits(rest as nat) == binary_digits(micros as nat),
            decreases 31 - bin,
        {
            rest = rest / 2;
            bin += 1;
        }
        assert(bin == bin_of(micros));
        proof {
            lemma_total_front(self@, bin as int);
            lemma_total_front(self@, bin + 1);
            assert(self@.take(bin + 1).drop_last() =~= self@.take(bin as int));
            lemma_total_update(self@, bin as int, self@[bin as int].wrapping_add(1));
        }
        self.bins[bin] = self.bins[bin].wrapping_add(1);
        assert(self@ =~= recorded(old(self)@, micros));
    }

    /// Whether the sum of the bins is one that a counter can hold.
    pub fn countable(&self) -> (r: bool)
        ensures
            r == self.wf(),
    {
        let mut count: u64 = 0;
        let mut i: usize = 0;
        while i < 32
            invariant
                i <= 32,
                count == total(self@.take(i as int)),
            decreases 32 - i,
        {
            proof {
                assert(self@.take(i + 1).drop_last() =~= self@.take(i as int));
                lemma_total_front(self@, i + 1);
            }
            if self.bins[i] > u64::MAX - count {
                return false;
            }
            count = count + self.bins[i];
            i += 1;
        }
        assert(self@.take(32) =~= self@);
        true
    }

    /// The upper bound of the bin of the given rank.
    fn bound(&self, rank: u64) -> (r: u64)
        requires
            self.wf(),
            1 <= rank <= total(self@),
        ensures
            r == upper_bound(rank_bin(self@, rank as nat)),
    {
        let mut seen: u64 = 0;
        let mut upper: u64 = 0;
        let mut i: usize = 0;
        loop
            invariant
                self.wf(),
                i < 32,
                rank <= total(self@),
                seen == total(self@.take(i as int)),
                seen < rank,
                upper == upper_bound(i as int),
                upper < 0x1_0000_0000,
                upper + 1 == pow2_of(i as int),
            decreases 32 - i,
        {
            proof {
                assert(self@.take(i + 1).drop_last() =~= self@.take(i as int));
                lemma_total_front(self@, i + 1);
                lemma_pow2_of(i as int);
                lemma_pow2_of(i + 1);
            }
            seen = seen + self.bins[i];
            if seen >= rank {
                proof {
                    lemma_rank_bin_is(self@, rank as nat, i as int);
                }
                return upper;
            }
            if i == 31 {
                assert(self@.take(32) =~= self@);
            }
            i += 1;
            upper = 2 * upper + 1;
        }
    }

    /// Reports the number of measurements and the bounds of two percentiles.
    pub fn snapshot(&self) -> (r: TimingSnapshot)
        requires
            self.wf(),
        ensures
            r == snapshot_of(self@),
    {
        let mut count: u64 = 0;
        let mut i: usize = 0;
        while i < 32
            invariant
                i <= 32,
                self.wf(),
                count == total(self@.take(i as int)),
            decreases 32 - i,
        {
            proof {
                assert(self@.take(i + 1).drop_last() =~= self@.take(i as int));
                lemma_total_front(self@, i + 1);
            }
            count = count + self.bins[i];
            i += 1;
        }
        assert(self@.take(32) =~= self@);
        if count == 0 {
            return TimingSnapshot { samples: 0, p50_upper_us: None, p95_upper_us: None };
        }
        proof {
            lemma_ranks(count as nat);
        }
        let whole: u128 = double::round_whole(count as u128);
        let part: u128 = double::round_whole(whole * MOST as u128);
        let median: u64 = ((whole + 1) / 2) as u64;
        let high: u64 = ((part + 0x1f_ffff_ffff_ffff) / 0x20_0000_0000_0000) as u64;
        TimingSnapshot {
            samples: count,
            p50_upper_us: Some(self.bound(median)),
            p95_upper_us: Some(self.bound(high)),
        }
    }
}

/// A power of two.
spec fn pow2_of(exponent: int) -> nat
    decreases exponent,
{
    if exponent <= 0 {
        1
    } else {
        2 * pow2_of(exponent - 1)
    }
}

proof fn lemma_pow2_of(exponent: int)
    requires
        0 <= exponent <= 32,
    ensures
        pow2_of(exponent) <= 0x1_0000_0000,
        exponent <= 31 ==> pow2_of(exponent) <= 0x8000_0000,
    decreases exponent,
{
    reveal_with_fuel(pow2_of, 34);
}

/// Every duration is at most the upper bound of its bin, unless it stands in the last bin.
pub proof fn law_bin_covers_duration(micros: u64)
    requires
        bin_of(micros) < 31,
    ensures
        micros <= upper_bound(bin_of(micros)),
        bin_of(micros) > 0 ==> micros > upper_bound(bin_of(micros) - 1),
{
    lemma_digits_bound(micros as nat);
}

proof fn lemma_digits_bound(value: nat)
    ensures
        value <= upper_bound(binary_digits(value) as int),
        value > 0 ==> value > upper_bound(binary_digits(value) as int - 1),
    decreases value,
{
    if value > 0 {
        lemma_digits_bound(value / 2);
        if value / 2 == 0 {
            assert(binary_digits(1) == 1 + binary_digits(0));
        }
    }
}

/// The bin of a larger rank is not an earlier one.
proof fn lemma_rank_bin_monotone(bins: Seq<u64>, small: nat, large: nat)
    requires
        small <= large,
    ensures
        rank_bin(bins, small) <= rank_bin(bins, large),
        bins.len() > 0 ==> rank_bin(bins, large) < bins.len(),
        rank_bin(bins, small) >= 0,
    decreases bins.len(),
{
    if bins.len() > 0 {
        lemma_rank_bin_monotone(bins.drop_last(), small, large);
    }
}

proof fn lemma_upper_bound_monotone(small: int, large: int)
    requires
        0 <= small <= large,
    ensures
        upper_bound(small) <= upper_bound(large),
    decreases large,
{
    if small < large {
        lemma_upper_bound_monotone(small, large - 1);
    }
}

/// A report gives both percentiles or neither, and the median is not above the 95th percentile.
pub proof fn law_percentiles_are_ordered(timing: Timing)
    requires
        timing.wf(),
    ensures
        ({
            let report = snapshot_of(timing@);
            match (report.p50_upper_us, report.p95_upper_us) {
                (Some(median), Some(high)) => report.samples > 0 && median <= high,
                (None, None) => report.samples == 0,
                _ => false,
            }
        }),
{
    let bins = timing@;
    let count = total(bins);
    if count > 0 {
        lemma_ranks(count);
        lemma_rank_bin_monotone(bins, half(count), most(count));
        let low = rank_bin(bins, half(count));
        let high = rank_bin(bins, most(count));
        lemma_upper_bound_monotone(low, high);
        lemma_upper_bound_monotone(high, 31);
        assert(upper_bound(31) == 0x7fff_ffff) by {
            reveal_with_fuel(upper_bound, 33);
        }
    }
}

/// Seconds and nanoseconds of the monotonic clock in microseconds.
pub fn monotonic_us(seconds: u64, nanoseconds: u64) -> (r: u64)
    requires
        seconds * 1_000_000 + nanoseconds / 1_000 <= u64::MAX,
    ensures
        r == seconds * 1_000_000 + nanoseconds / 1_000,
{
    seconds * 1_000_000 + nanoseconds / 1_000
}

/// The counters of one call.
pub struct Metrics {
    pub tx_frames: u64,
    pub tx_samples: u64,
    pub rx_samples: u64,
    pub rx_packet_samples: u64,
    pub audio_packet_ms: u64,
    pub audio_target_bps: u64,
    pub audio_complexity: u64,
    pub video_tx_frames: u64,
    pub video_rx_frames: u64,
    pub video_tx_bytes: u64,
    pub video_rx_bytes: u64,
    pub video_backpressure: u64,
    pub video_age_us: u64,
    pub video_loss_fraction: u64,
    pub video_quality_level: u64,
    pub video_quality_changes: u64,
    pub audio_age_us: u64,
    pub audio_concealed_frames: u64,
    pub audio_late_samples: u64,
    pub transport_tx: u64,
    pub transport_rx: u64,
    pub source_rms_ppm: u64,
    pub captured_samples: u64,
    pub rx_frames: u64,
    pub tx_payload: u64,
    pub rx_payload: u64,
    pub rx_non_silent: u64,
    pub capture_dropped: u64,
    pub capture_missing: u64,
    pub playback_dropped: u64,
    pub playback_missing: u64,
    pub playback_callback_peak: u64,
    pub playback_lead_peak: u64,
    pub capture_peak: u64,
    pub playback_peak: u64,
    pub gaps: u64,
    pub late_packets: u64,
    pub decode_errors: u64,
    pub device_errors: u64,
    pub video_encode: Timing,
    pub video_ready_age: Timing,
    pub video_frame_to_decode: Timing,
    pub av_decode_skew: Timing,
    pub encode_time: Timing,
    pub decode_time: Timing,
    pub frame_to_decode: Timing,
}

/// What the counters of a call say at one moment.
#[derive(Clone, Debug)]
pub struct Summary {
    pub id: String,
    pub elapsed_seconds: Double,
    pub tx_frames: u64,
    pub tx_audio_samples: u64,
    pub rx_audio_samples: u64,
    pub audio_packet_ms: u64,
    pub audio_target_bps: u64,
    pub audio_complexity: u64,
    pub video_tx_frames: u64,
    pub video_loss_fraction: u64,
    pub video_quality_level: u64,
    pub video_quality_changes: u64,
    pub video_rx_frames: u64,
    pub video_tx_bytes: u64,
    pub video_rx_bytes: u64,
    pub video_backpressure_events: u64,
    pub audio_late_samples: u64,
    pub audio_concealed_frames: u64,
    pub transport_tx_bytes: u64,
    pub transport_rx_bytes: u64,
    pub source_rms_ppm: u64,
    pub captured_samples: u64,
    pub rx_frames: u64,
    pub tx_opus_bytes: u64,
    pub rx_opus_bytes: u64,
    pub rx_non_silent_frames: u64,
    pub capture_dropped_samples: u64,
    pub capture_missing_samples: u64,
    pub playback_dropped_samples: u64,
    pub playback_missing_samples: u64,
    pub playback_callback_peak_samples: u64,
    pub playback_lead_peak_us: u64,
    pub capture_peak_samples: u64,
    pub playback_peak_samples: u64,
    pub sequence_gaps: u64,
    pub late_packets: u64,
    pub decode_errors: u64,
    pub device_errors: u64,
    pub video_encode: TimingSnapshot,
    pub video_ready_age: TimingSnapshot,
    pub video_frame_to_decode: TimingSnapshot,
    pub av_decode_skew: TimingSnapshot,
    pub encode: TimingSnapshot,
    pub decode: TimingSnapshot,
    pub frame_to_decode: TimingSnapshot,
    pub outcome: String,
}

impl Metrics {
    /// No histogram holds more measurements than a counter can count.
    pub open spec fn wf(self) -> bool {
        &&& self.video_encode.wf()
        &&& self.video_ready_age.wf()
        &&& self.video_frame_to_decode.wf()
        &&& self.av_decode_skew.wf()
        &&& self.encode_time.wf()
        &&& self.decode_time.wf()
        &&& self.frame_to_decode.wf()
    }

    /// All counters at zero.
    pub fn new() -> (r: Self)
        ensures
            r.wf(),
            r.tx_frames == 0,
            r.tx_samples == 0,
            r.rx_samples == 0,
            r.rx_packet_samples == 0,
            r.audio_packet_ms == 0,
            r.audio_target_bps == 0,
            r.audio_complexity == 0,
            r.video_tx_frames == 0,
            r.video_rx_frames == 0,
            r.video_tx_bytes == 0,
            r.video_rx_bytes == 0,
            r.video_backpressure == 0,
            r.video_age_us == 0,
            r.video_loss_fraction == 0,
            r.video_quality_level == 0,
            r.video_quality_changes == 0,
            r.audio_age_us == 0,
            r.audio_concealed_frames == 0,
            r.audio_late_samples == 0,
            r.transport_tx == 0,
            r.transport_rx == 0,
            r.source_rms_ppm == 0,
            r.captured_samples == 0,
            r.rx_frames == 0,
            r.tx_payload == 0,
            r.rx_payload == 0,
            r.rx_non_silent == 0,
            r.capture_dropped == 0,
            r.capture_missing == 0,
            r.playback_dropped == 0,
            r.playback_missing == 0,
            r.playback_callback_peak == 0,
            r.playback_lead_peak == 0,
            r.capture_peak == 0,
            r.playback_peak == 0,
            r.gaps == 0,
            r.late_packets == 0,
            r.decode_errors == 0,
            r.device_errors == 0,
            r.video_encode@ == Timing::empty(),
            r.video_ready_age@ == Timing::empty(),
            r.video_frame_to_decode@ == Timing::empty(),
            r.av_decode_skew@ == Timing::empty(),
            r.encode_time@ == Timing::empty(),
            r.decode_time@ == Timing::empty(),
            r.frame_to_decode@ == Timing::empty(),
    {
        Metrics {
            tx_frames: 0,
            tx_samples: 0,
            rx_samples: 0,
            rx_packet_samples: 0,
            audio_packet_ms: 0,
            audio_target_bps: 0,
            audio_complexity: 0,
            video_tx_frames: 0,
            video_rx_frames: 0,
            video_tx_bytes: 0,
            video_rx_bytes: 0,
            video_backpressure: 0,
            video_age_us: 0,
            video_loss_fraction: 0,
            video_quality_level: 0,
            video_quality_changes: 0,
            audio_age_us: 0,
            audio_concealed_frames: 0,
            audio_late_samples: 0,
            transport_tx: 0,
            transport_rx: 0,
            source_rms_ppm: 0,
            captured_samples: 0,
            rx_frames: 0,
            tx_payload: 0,
            rx_payload: 0,
            rx_non_silent: 0,
            capture_dropped: 0,
            capture_missing: 0,
            playback_dropped: 0,
            playback_missing: 0,
            playback_callback_peak: 0,
            playback_lead_peak: 0,
            capture_peak: 0,
            playback_peak: 0,
            gaps: 0,
            late_packets: 0,
            decode_errors: 0,
            device_errors: 0,
            video_encode: Timing::new(),
            video_ready_age: Timing::new(),
            video_frame_to_decode: Timing::new(),
            av_decode_skew: Timing::new(),
            encode_time: Timing::new(),
            decode_time: Timing::new(),
            frame_to_decode: Timing::new(),
        }
    }

    /// Whether every histogram can be summed up.
    pub fn countable(&self) -> (r: bool)
        ensures
            r == self.wf(),
    {
        self.video_encode.countable() && self.video_ready_age.countable()
            && self.video_frame_to_decode.countable() && self.av_decode_skew.countable()
            && self.encode_time.countable() && self.decode_time.countable()
            && self.frame_to_decode.countable()
    }

    /// Copies the counters and reads the histograms.
    pub fn summary(&self, id: &str, seconds: Double, outcome: &str) -> (r: Summary)
        requires
            self.wf(),
        ensures
            r.id@ == id@,
            r.elapsed_seconds == seconds,
            r.tx_frames == self.tx_frames,
            r.tx_audio_samples == self.tx_samples,
            r.rx_audio_samples == self.rx_samples,
            r.audio_packet_ms == self.audio_packet_ms,
            r.audio_target_bps == self.audio_target_bps,
            r.audio_complexity == self.audio_complexity,
            r.video_tx_frames == self.video_tx_frames,
            r.video_loss_fraction == self.video_loss_fraction,
            r.video_quality_level == self.video_quality_level,
            r.video_quality_changes == self.video_quality_changes,
            r.video_rx_frames == self.video_rx_frames,
            r.video_tx_bytes == self.video_tx_bytes,
            r.video_rx_bytes == self.video_rx_bytes,
            r.video_backpressure_events == self.video_backpressure,
            r.audio_late_samples == self.audio_late_samples,
            r.audio_concealed_frames == self.audio_concealed_frames,
            r.transport_tx_bytes == self.transport_tx,
            r.transport_rx_bytes == self.transport_rx,
            r.source_rms_ppm == self.source_rms_ppm,
            r.captured_samples == self.captured_samples,
            r.rx_frames == self.rx_frames,
            r.tx_opus_bytes == self.tx_payload,
            r.rx_opus_bytes == self.rx_payload,
            r.rx_non_silent_frames == self.rx_non_silent,
            r.capture_dropped_samples == self.capture_dropped,
            r.capture_missing_samples == self.capture_missing,
            r.playback_dropped_samples == self.playback_dropped,
            r.playback_missing_samples == self.playback_missing,
            r.playback_callback_peak_samples == self.playback_callback_peak,
            r.playback_lead_peak_us == self.playback_lead_peak,
            r.capture_peak_samples == self.capture_peak,
            r.playback_peak_samples == self.playback_peak,
            r.sequence_gaps == self.gaps,
            r.late_packets == self.late_packets,
            r.decode_errors == self.decode_errors,
            r.device_errors == self.device_errors,
            r.video_encode == snapshot_of(self.video_encode@),
            r.video_ready_age == snapshot_of(self.video_ready_age@),
            r.video_frame_to_decode == snapshot_of(self.video_frame_to_decode@),
            r.av_decode_skew == snapshot_of(self.av_decode_skew@),
            r.encode == snapshot_of(self.encode_time@),
            r.decode == snapshot_of(self.decode_time@),
            r.frame_to_decode == snapshot_of(self.frame_to_decode@),
            r.outcome@ == outcome@,
    {
        Summary {
            id: String::from_str(id),
            elapsed_seconds: seconds,
            tx_frames: get(&self.tx_frames),
            tx_audio_samples: get(&self.tx_samples),
            rx_audio_samples: get(&self.rx_samples),
            audio_packet_ms: get(&self.audio_packet_ms),
            audio_target_bps: get(&self.audio_target_bps),
            audio_complexity: get(&self.audio_complexity),
            video_tx_frames: get(&self.video_tx_frames),
            video_loss_fraction: get(&self.video_loss_fraction),
            video_quality_level: get(&self.video_quality_level),
            video_quality_changes: get(&self.video_quality_changes),
            video_rx_frames: get(&self.video_rx_frames),
            video_tx_bytes: get(&self.video_tx_bytes),
            video_rx_bytes: get(&self.video_rx_bytes),
            video_backpressure_events: get(&self.video_backpressure),
            audio_late_samples: get(&self.audio_late_samples),
            audio_concealed_frames: get(&self.audio_concealed_frames),
            transport_tx_bytes: get(&self.transport_tx),
            transport_rx_bytes: get(&self.transport_rx),
            source_rms_ppm: get(&self.source_rms_ppm),
            captured_samples: get(&self.captured_samples),
            rx_frames: get(&self.rx_frames),
            tx_opus_bytes: get(&self.tx_payload),
            rx_opus_bytes: get(&self.rx_payload),
            rx_non_silent_frames: get(&self.rx_non_silent),
            capture_dropped_samples: get(&self.capture_dropped),
            capture_missing_samples: get(&self.capture_missing),
            playback_dropped_samples: get(&self.playback_dropped),
            playback_missing_samples: get(&self.playback_missing),
            playback_callback_peak_samples: get(&self.playback_callback_peak),
            playback_lead_peak_us: get(&self.playback_lead_peak),
            capture_peak_samples: get(&self.capture_peak),
            playback_peak_samples: get(&self.playback_peak),
            sequence_gaps: get(&self.gaps),
            late_packets: get(&self.late_packets),
            decode_errors: get(&self.decode_errors),
            device_errors: get(&self.device_errors),
            video_encode: self.video_encode.snapshot(),
            video_ready_age: self.video_ready_age.snapshot(),
            video_frame_to_decode: self.video_frame_to_decode.snapshot(),
            av_decode_skew: self.av_decode_skew.snapshot(),
            encode: self.encode_time.snapshot(),
            decode: self.decode_time.snapshot(),
            frame_to_decode: self.frame_to_decode.snapshot(),
            outcome: String::from_str(outcome),
        }
    }
}

/// At least as many measurements as the rank says stand in the bin of the rank and in those below
/// it, and fewer stand below it: a percentile is the upper bound of its own bin.
pub proof fn law_percentile_is_upper_bound(bins: Seq<u64>, rank: nat)
    requires
        1 <= rank <= total(bins),
    ensures
        0 <= rank_bin(bins, rank) < bins.len(),
        total(bins.take(rank_bin(bins, rank) + 1)) >= rank,
        total(bins.take(rank_bin(bins, rank))) < rank,
    decreases bins.len(),
{
    let front = bins.drop_last();
    if total(front) >= rank {
        law_percentile_is_upper_bound(front, rank);
        let i = rank_bin(front, rank);
        assert(bins.take(i + 1) =~= front.take(i + 1));
        assert(bins.take(i) =~= front.take(i));
    } else {
        assert(bins.take(bins.len() as int) =~= bins);
        assert(bins.take(bins.len() - 1) =~= front);
    }
}

/// The bin of a duration is the number of its binary digits: durations of the same number of digits
/// share a bin, the bins of longer ones are later, and all from two to the thirtieth on share the last.
pub proof fn law_bins_are_powers_of_two(micros: u64, bin: nat)
    requires
        bin <= 31,
    ensures
        bin == 0 ==> (bin_of(micros) == 0 <==> micros == 0),
        1 <= bin <= 30 ==> (bin_of(micros) == bin <==> vstd::arithmetic::power2::pow2(
            (bin - 1) as nat,
        ) <= micros < vstd::arithmetic::power2::pow2(bin)),
        bin == 31 ==> (bin_of(micros) == 31 <==> micros >= vstd::arithmetic::power2::pow2(30)),
        upper_bound(bin as int) + 1 == vstd::arithmetic::power2::pow2(bin),
{
    lemma_upper_bound_is(bin);
    let digits = binary_digits(micros as nat);
    lemma_digits_bound(micros as nat);
    lemma_upper_bound_is(digits);
    if digits > 0 {
        lemma_upper_bound_is((digits - 1) as nat);
    }
    if bin > 0 {
        lemma_upper_bound_is((bin - 1) as nat);
    }
    lemma_upper_bound_is(30);
    lemma_upper_bound_is(29);
    if bin > 0 {
        if (digits as int) < bin {
            lemma_upper_bound_monotone(digits as int, bin - 1);
        }
        if digits > bin {
            lemma_upper_bound_monotone(bin as int, digits - 1);
        }
    }
    if digits <= 30 {
        lemma_upper_bound_monotone(digits as int, 30);
    } else {
        lemma_upper_bound_monotone(30, digits - 1);
    }
}

proof fn lemma_upper_bound_is(bin: nat)
    ensures
        upper_bound(bin as int) + 1 == vstd::arithmetic::power2::pow2(bin),
    decreases bin,
{
    if bin == 0 {
        vstd::arithmetic::power2::lemma2_to64();
    } else {
        lemma_upper_bound_is((bin - 1) as nat);
        vstd::arithmetic::power2::lemma_pow2_unfold(bin);
    }
}

/// A duration is counted in its bin alone, once.
pub proof fn law_duration_is_counted_once(bins: Seq<u64>, micros: u64, i: int)
    requires
        bins.len() == 32,
        0 <= i < 32,
        total(bins) < u64::MAX,
    ensures
        recorded(bins, micros).len() == 32,
        recorded(bins, micros)[i] == bins[i] + (if i == bin_of(micros) {
            1int
        } else {
            0
        }),
        total(recorded(bins, micros)) == total(bins) + 1,
{
    let bin = bin_of(micros);
    lemma_total_front(bins, bin);
    lemma_total_front(bins, bin + 1);
    assert(bins.take(bin + 1).drop_last() =~= bins.take(bin));
    lemma_total_update(bins, bin, bins[bin].wrapping_add(1));
}

/// Of so many measurements the median is one that half of them do not exceed, and the 95th percentile
/// one that nineteen of twenty do not, each the lowest such one, give or take one.
pub proof fn law_ranks_of_percentiles(count: nat)
    requires
        1 <= count <= 0x100_0000_0000,
    ensures
        count <= 2 * half(count) <= count + 1,
        19 * count <= 20 * most(count) <= 19 * count + 20,
{
    double::lemma_rounded(count);
    let whole = double::rounded(count);
    assert(whole == count);
    let product = whole * MOST as nat;
    double::lemma_rounded(product);
    let part = double::rounded(product);
    assert(product == count * 0x1e_6666_6666_6666);
}

} // verus!
