//! The picture side of a call: presets, the test pattern, what is shown, and adaptation to loss.
use crate::metrics::Metrics;
use vstd::prelude::*;

verus! {

/// How long after its creation a picture or a sound is presented.
pub const PLAYOUT_US: u64 = 120_000;

/// The name of the header extension that carries the creation time.
pub const TIME_URI: &'static str = "urn:rcof:same-host-video-created-us";

/// Where pictures come from.
#[derive(Clone, Copy, Debug, PartialEq, Eq, Structural)]
pub enum VideoSource {
    Off,
    Pattern,
    Camera,
}

impl Default for VideoSource {
    fn default() -> (r: Self)
        ensures
            r == VideoSource::Off,
    {
        VideoSource::Off
    }
}

/// A rung of the ladder of picture sizes, from the smallest to the largest.
#[derive(Clone, Copy, Debug, PartialEq, Eq, Structural)]
pub enum Quality {
    Tiny,
    Minimal,
    Low,
    Standard,
}

impl Default for Quality {
    fn default() -> (r: Self)
        ensures
            r == Quality::Standard,
    {
        Quality::Standard
    }
}

/// The rung at a height; beyond the top there is nothing higher.
pub open spec fn quality_at(level: u64) -> Quality {
    if level == 0 {
        Quality::Tiny
    } else if level == 1 {
        Quality::Minimal
    } else if level == 2 {
        Quality::Low
    } else {
        Quality::Standard
    }
}

impl Quality {
    /// The height of the rung.
    pub open spec fn height(self) -> u64 {
        match self {
            Quality::Tiny => 0,
            Quality::Minimal => 1,
            Quality::Low => 2,
            Quality::Standard => 3,
        }
    }

    /// The size of the pictures.
    pub open spec fn size(self) -> (u32, u32) {
        match self {
            Quality::Tiny => (160, 90),
            Quality::Minimal => (256, 144),
            Quality::Low => (320, 180),
            Quality::Standard => (640, 360),
        }
    }

    /// The bits per second that the encoder aims at.
    pub open spec fn target(self) -> u32 {
        match self {
            Quality::Tiny => 40_000,
            Quality::Minimal => 80_000,
            Quality::Low => 180_000,
            Quality::Standard => 450_000,
        }
    }

    /// The pictures per second.
    pub open spec fn rate(self) -> u32 {
        match self {
            Quality::Tiny => 5,
            Quality::Minimal => 10,
            _ => 15,
        }
    }

    /// The rung at a height.
    pub fn from_level(level: u64) -> (r: Self)
        ensures
            r == quality_at(level),
    {
        if level == 0 {
            Quality::Tiny
        } else if level == 1 {
            Quality::Minimal
        } else if level == 2 {
            Quality::Low
        } else {
            Quality::Standard
        }
    }

    /// The height of the rung.
    pub fn level(self) -> (r: u64)
        ensures
            r == self.height(),
    {
        match self {
            Quality::Tiny => 0,
            Quality::Minimal => 1,
            Quality::Low => 2,
            Quality::Standard => 3,
        }
    }

    /// The width and the height of the pictures.
    pub fn dimensions(self) -> (r: (u32, u32))
        ensures
            r == self.size(),
    {
        match self {
            Quality::Tiny => (160, 90),
            Quality::Minimal => (256, 144),
            Quality::Low => (320, 180),
            Quality::Standard => (640, 360),
        }
    }

    /// The bits per second that the encoder aims at.
    pub fn bitrate(self) -> (r: u32)
        ensures
            r == self.target(),
    {
        match self {
            Quality::Tiny => 40_000,
            Quality::Minimal => 80_000,
            Quality::Low => 180_000,
            Quality::Standard => 450_000,
        }
    }

    /// The pictures per second.
    pub fn fps(self) -> (r: u32)
        ensures
            r == self.rate(),
    {
        match self {
            Quality::Tiny => 5,
            Quality::Minimal => 10,
            _ => 15,
        }
    }

    /// The time from one picture to the next, in microseconds.
    pub fn interval_us(self) -> (r: u64)
        ensures
            r == 1_000_000u64 / self.rate() as u64,
    {
        1_000_000 / (self.fps() as u64)
    }

    /// The preset's name on screen.
    pub open spec fn words(self) -> Seq<char> {
        match self {
            Quality::Tiny => "Tiny · 160 × 90 · 5 fps"@,
            Quality::Minimal => "Minimal · 256 × 144 · 10 fps"@,
            Quality::Low => "Low · 320 × 180"@,
            Quality::Standard => "Standard · 640 × 360"@,
        }
    }

    /// The preset's name on screen.
    pub fn label(self) -> (r: &'static str)
        ensures
            r@ == self.words(),
    {
        match self {
            Quality::Tiny => "Tiny · 160 × 90 · 5 fps",
            Quality::Minimal => "Minimal · 256 × 144 · 10 fps",
            Quality::Low => "Low · 320 × 180",
            Quality::Standard => "Standard · 640 × 360",
        }
    }
}

/// A rung is found again by its height.
pub proof fn law_quality_by_level(quality: Quality)
    ensures
        quality_at(quality.height()) == quality,
{
}

/// A higher rung never costs fewer bits, has smaller pictures, or shows fewer of them.
pub proof fn law_ladder_rises(low: Quality, high: Quality)
    requires
        low.height() <= high.height(),
    ensures
        low.target() <= high.target(),
        low.rate() <= high.rate(),
        low.size().0 <= high.size().0,
        low.size().1 <= high.size().1,
{
}

/// How a participant sends pictures.
#[derive(Clone, Debug)]
pub struct Options {
    pub video: VideoSource,
    pub quality: Quality,
    pub camera: String,
    pub ffmpeg: String,
    pub keyframe_seconds: u32,
}

impl Default for Options {
    fn default() -> (r: Self)
        ensures
            r.video == VideoSource::Off,
            r.quality == Quality::Standard,
            r.camera@ == "0"@,
            r.ffmpeg@ == "ffmpeg"@,
            r.keyframe_seconds == 1,
    {
        Options {
            video: VideoSource::Off,
            quality: Quality::Standard,
            camera: String::from_str("0"),
            ffmpeg: String::from_str("ffmpeg"),
            keyframe_seconds: 1,
        }
    }
}

/// The colour of a bar of the test pattern.
pub open spec fn bar_colour(bar: int, channel: int) -> int {
    let bars = seq![
        seq![54int, 117, 255],
        seq![25int, 194, 162],
        seq![252int, 190, 69],
        seq![241int, 98, 108],
        seq![137int, 99, 231],
        seq![231int, 237, 248],
    ];
    bars[bar][channel]
}

/// One channel of one point of the test pattern: six bars under a faint grid, a white line that
/// moves from left to right, and a block in the middle that changes every fifteen pictures.
pub open spec fn pattern_value(
    width: int,
    height: int,
    index: int,
    tint: int,
    x: int,
    y: int,
    channel: int,
) -> int {
    let line = index * 7 % width;
    if width / 3 < x < 2 * width / 3 && height / 3 < y < 2 * height / 3 {
        if index / 15 % 2 == 0 {
            seq![24int, 31, 44][channel]
        } else {
            seq![241int, 246, 255][channel]
        }
    } else if -6 < x - line < 6 {
        255
    } else {
        bar_colour((x * 6 / width + tint) % 6, channel) * (70 + (x / 32 + y / 32) % 2 * 10) / 100
    }
}

/// The test pattern: three bytes for each point, row by row.
pub open spec fn pattern(width: int, height: int, index: int, tint: int) -> Seq<u8> {
    Seq::new(
        (width * height * 3) as nat,
        |i: int|
            pattern_value(width, height, index, tint, i / 3 % width, i / 3 / width, i % 3) as u8,
    )
}

/// The three channels of a point of the test pattern.
fn pattern_point(width: u32, height: u32, index: u64, tint: u8, x: u32, y: u32) -> (r: (u8, u8, u8))
    requires
        width < 0x7fff_ffff,
        height < 0x7fff_ffff,
        (width - 1) * 6 <= u32::MAX,
        index * 7 <= u64::MAX,
        x < width,
        y < height,
    ensures
        r.0 == pattern_value(width as int, height as int, index as int, tint as int, x as int, y as int, 0),
        r.1 == pattern_value(width as int, height as int, index as int, tint as int, x as int, y as int, 1),
        r.2 == pattern_value(width as int, height as int, index as int, tint as int, x as int, y as int, 2),
{
    if x > width / 3 && x < 2 * width / 3 && y > height / 3 && y < 2 * height / 3 {
        return if index / 15 % 2 == 0 {
            (24, 31, 44)
        } else {
            (241, 246, 255)
        };
    }
    let position: i64 = (index * 7 % (width as u64)) as i64;
    let distance: i64 = x as i64 - position;
    if -6 < distance && distance < 6 {
        return (255, 255, 255);
    }
    assert(0 <= x * 6 / width as int <= 6) by (nonlinear_arith)
        requires
            0 <= x < width,
    ;
    let bar: u32 = (x * 6 / width + tint as u32) % 6;
    let shade: u32 = 70 + (x / 32 + y / 32) % 2 * 10;
    let (red, green, blue): (u32, u32, u32) = if bar == 0 {
        (54, 117, 255)
    } else if bar == 1 {
        (25, 194, 162)
    } else if bar == 2 {
        (252, 190, 69)
    } else if bar == 3 {
        (241, 98, 108)
    } else if bar == 4 {
        (137, 99, 231)
    } else {
        (231, 237, 248)
    };
    assert(shade == 70 || shade == 80);
    (
        (red * shade / 100) as u8,
        (green * shade / 100) as u8,
        (blue * shade / 100) as u8,
    )
}

/// Where a point stands in a picture.
proof fn lemma_point(width: int, x: int, y: int, channel: int)
    requires
        0 <= x < width,
        0 <= y,
        0 <= channel < 3,
    ensures
        ({
            let i = (y * width + x) * 3 + channel;
            i / 3 % width == x && i / 3 / width == y && i % 3 == channel
        }),
{
    let point = y * width + x;
    assert(((point) * 3 + channel) / 3 == point);
    vstd::arithmetic::div_mod::lemma_fundamental_div_mod_converse(point, width, y, x);
}

/// Draws one picture of the test pattern.
pub fn test_pattern(width: u32, height: u32, index: u64, tint: u8) -> (rgb: Vec<u8>)
    requires
        width * height * 3 <= u32::MAX,
        width > 0 && height > 0 ==> (width - 1) * 6 <= u32::MAX && index * 7 <= u64::MAX,
    ensures
        rgb@ == pattern(width as int, height as int, index as int, tint as int),
{
    let mut rgb: Vec<u8> = Vec::new();
    let ghost whole = pattern(width as int, height as int, index as int, tint as int);
    let mut y: u32 = 0;
    while y < height
        invariant
            y <= height,
            width * height * 3 <= u32::MAX,
            width > 0 && height > 0 ==> (width - 1) * 6 <= u32::MAX && index * 7 <= u64::MAX,
            whole == pattern(width as int, height as int, index as int, tint as int),
            whole.len() == width * height * 3,
            rgb@.len() == y * width * 3,
            forall|k: int| 0 <= k < rgb@.len() ==> rgb@[k] == whole[k],
        decreases height - y,
    {
        let mut x: u32 = 0;
        while x < width
            invariant
                x <= width,
                y < height,
                width * height * 3 <= u32::MAX,
                width > 0 && height > 0 ==> (width - 1) * 6 <= u32::MAX && index * 7 <= u64::MAX,
                whole == pattern(width as int, height as int, index as int, tint as int),
                whole.len() == width * height * 3,
                rgb@.len() == (y * width + x) * 3,
                forall|k: int| 0 <= k < rgb@.len() ==> rgb@[k] == whole[k],
            decreases width - x,
        {
            assert(width * 3 <= width * height * 3 && height * 3 <= width * height * 3)
                by (nonlinear_arith)
                requires
                    width >= 1,
                    height >= 1,
            ;
            let (red, green, blue) = pattern_point(width, height, index, tint, x, y);
            proof {
                lemma_point(width as int, x as int, y as int, 0);
                lemma_point(width as int, x as int, y as int, 1);
                lemma_point(width as int, x as int, y as int, 2);
                let i = (y * width + x) * 3;
                assert(y * width + width <= height * width) by (nonlinear_arith)
                    requires
                        y < height,
                ;
                assert(height * width == width * height) by (nonlinear_arith);
                assert(i + 2 < whole.len());
                assert(whole[i] == red);
                assert(whole[i + 1] == green);
                assert(whole[i + 2] == blue);
            }
            rgb.push(red);
            rgb.push(green);
            rgb.push(blue);
            x += 1;
        }
        assert((y * width + width) * 3 == (y + 1) * width * 3) by (nonlinear_arith);
        y += 1;
    }
    assert(height * width * 3 == width * height * 3) by (nonlinear_arith);
    assert(rgb@ =~= whole);
    rgb
}

/// The sum of bytes.
pub open spec fn byte_sum(bytes: Seq<u8>) -> nat
    decreases bytes.len(),
{
    if bytes.len() == 0 {
        0
    } else {
        byte_sum(bytes.drop_last()) + bytes.last() as nat
    }
}

/// The tint of a participant's test pattern: the bytes of the name, summed.
pub fn tint(id: &str) -> (r: u8)
    ensures
        r == byte_sum(vstd::utf8::encode_utf8(id@)) % 256 % 6,
{
    let bytes = id.as_bytes();
    let mut sum: u8 = 0;
    let mut i: usize = 0;
    while i < bytes.len()
        invariant
            i <= bytes@.len(),
            sum == byte_sum(bytes@.take(i as int)) % 256,
        decreases bytes@.len() - i,
    {
        assert(bytes@.take(i + 1).drop_last() =~= bytes@.take(i as int));
        sum = sum.wrapping_add(bytes[i]);
        i += 1;
    }
    assert(bytes@.take(i as int) =~= bytes@);
    sum % 6
}

/// How many reports in a row were bad, or good.
#[derive(Clone, Copy, Debug, PartialEq, Eq, Structural)]
pub struct Adaptation {
    pub bad: u8,
    pub good: u8,
}

/// A count that stops at its end.
pub open spec fn counted(count: u8) -> u8 {
    if count < 255 {
        (count + 1) as u8
    } else {
        255
    }
}

impl Adaptation {
    /// The state after a report of lost packets, in parts of 256, and the rung to use from then
    /// on: the second bad report in a row (5% or more) steps down, the eighth good one steps up
    /// to the ceiling at most, and one between the two starts both counts anew.
    pub open spec fn observed(self, loss: u8, current: u64, ceiling: u64) -> (Adaptation, u64) {
        if loss >= 13 {
            if counted(self.bad) >= 2 {
                (
                    Adaptation { bad: 0, good: 0 },
                    if current > 0 {
                        (current - 1) as u64
                    } else {
                        0
                    },
                )
            } else {
                (Adaptation { bad: counted(self.bad), good: 0 }, current)
            }
        } else if loss <= 2 {
            if counted(self.good) >= 8 {
                (
                    Adaptation { bad: 0, good: 0 },
                    if current < ceiling {
                        (current + 1) as u64
                    } else {
                        ceiling
                    },
                )
            } else {
                (Adaptation { bad: 0, good: counted(self.good) }, current)
            }
        } else {
            (Adaptation { bad: 0, good: 0 }, current)
        }
    }

    /// The state and the rung after a list of reports.
    pub open spec fn observed_all(self, reports: Seq<u8>, current: u64, ceiling: u64) -> (
        Adaptation,
        u64,
    )
        decreases reports.len(),
    {
        if reports.len() == 0 {
            (self, current)
        } else {
            let (state, level) = self.observed_all(reports.drop_last(), current, ceiling);
            state.observed(reports.last(), level, ceiling)
        }
    }

    /// No report yet.
    pub fn new() -> (r: Self)
        ensures
            r == (Adaptation { bad: 0, good: 0 }),
    {
        Adaptation { bad: 0, good: 0 }
    }

    /// The state and the level after one block of a transport report.
    pub open spec fn reported(
        self,
        own: Option<u32>,
        subject: u32,
        loss: u8,
        adaptive: bool,
        ceiling: Quality,
        level: u64,
    ) -> (Adaptation, u64) {
        if own == Some(subject) && adaptive {
            self.observed(loss, level, ceiling.height())
        } else {
            (self, level)
        }
    }

    /// Whether a report steps up.
    pub open spec fn rises(self, loss: u8) -> bool {
        loss <= 2 && counted(self.good) >= 8
    }

    /// Takes a report in and returns the rung to use from then on.
    pub fn observe(&mut self, loss: u8, current: u64, ceiling: u64) -> (r: u64)
        requires
            old(self).rises(loss) ==> current < u64::MAX,
        ensures
            (*final(self), r) == old(self).observed(loss, current, ceiling),
    {
        if loss >= 13 {
            self.bad = self.bad.saturating_add(1);
            self.good = 0;
            if self.bad >= 2 {
                self.bad = 0;
                return current.saturating_sub(1);
            }
        } else if loss <= 2 {
            self.bad = 0;
            self.good = self.good.saturating_add(1);
            if self.good >= 8 {
                self.good = 0;
                return if current + 1 < ceiling {
                    current + 1
                } else {
                    ceiling
                };
            }
        } else {
            self.bad = 0;
            self.good = 0;
        }
        current
    }

    /// Takes in one block of a transport report: it counts only where it is about the stream that
    /// is sent from here. The loss is noted, and an adaptive stream moves along the ladder.
    /// Returns the rungs from which and to which it moved, if it did.
    pub fn report(
        &mut self,
        own: Option<u32>,
        subject: u32,
        loss: u8,
        adaptive: bool,
        ceiling: Quality,
        quality: &mut u64,
        metrics: &mut Metrics,
    ) -> (r: Option<(Quality, Quality)>)
        requires
            own == Some(subject) && adaptive && old(self).rises(loss) ==> *old(quality) < u64::MAX,
        ensures
            (*final(self), *final(quality)) == old(self).reported(
                own,
                subject,
                loss,
                adaptive,
                ceiling,
                *old(quality),
            ),
            own != Some(subject) ==> {
                &&& r is None
                &&& *final(self) == *old(self)
                &&& *final(quality) == *old(quality)
                &&& *final(metrics) == *old(metrics)
            },
            own == Some(subject) && !adaptive ==> {
                &&& r is None
                &&& *final(self) == *old(self)
                &&& *final(quality) == *old(quality)
                &&& *final(metrics) == (Metrics {
                    video_loss_fraction: loss as u64,
                    ..*old(metrics)
                })
            },
            own == Some(subject) && adaptive ==> {
                let (state, next) = old(self).observed(loss, *old(quality), ceiling.height());
                &&& *final(self) == state
                &&& *final(quality) == next
                &&& next == *old(quality) ==> r is None && *final(metrics) == (Metrics {
                    video_loss_fraction: loss as u64,
                    ..*old(metrics)
                })
                &&& next != *old(quality) ==> r == Some(
                    (quality_at(*old(quality)), quality_at(next)),
                ) && *final(metrics) == (Metrics {
                    video_loss_fraction: loss as u64,
                    video_quality_level: next,
                    video_quality_changes: old(metrics).video_quality_changes.wrapping_add(1),
                    ..*old(metrics)
                })
            },
    {
        let ours = match own {
            Some(source) => source == subject,
            None => false,
        };
        if !ours {
            return None;
        }
        metrics.video_loss_fraction = loss as u64;
        if !adaptive {
            return None;
        }
        let current: u64 = *quality;
        let next: u64 = self.observe(loss, current, ceiling.level());
        if next == current {
            return None;
        }
        *quality = next;
        metrics.video_quality_level = next;
        crate::metrics::add(&mut metrics.video_quality_changes, 1);
        Some((Quality::from_level(current), Quality::from_level(next)))
    }
}

/// One report moves the stream by one rung at most, and never from below the ceiling to above it.
pub proof fn law_one_step_at_a_time(state: Adaptation, loss: u8, current: u64, ceiling: u64)
    requires
        current <= ceiling,
    ensures
        ({
            let next = state.observed(loss, current, ceiling).1;
            next <= ceiling && -1 <= next - current <= 1
        }),
{
}

/// No reports ever lift a stream above its ceiling.
pub proof fn law_ceiling_holds(state: Adaptation, reports: Seq<u8>, current: u64, ceiling: u64)
    requires
        current <= ceiling,
    ensures
        state.observed_all(reports, current, ceiling).1 <= ceiling,
    decreases reports.len(),
{
    if reports.len() > 0 {
        law_ceiling_holds(state, reports.drop_last(), current, ceiling);
    }
}

/// One bad report changes nothing where the report before it was not bad, and a second one right
/// after it steps down.
pub proof fn law_two_bad_reports_step_down(
    state: Adaptation,
    first: u8,
    second: u8,
    current: u64,
    ceiling: u64,
)
    requires
        state.bad == 0,
        first >= 13,
        second >= 13,
    ensures
        state.observed_all(seq![first], current, ceiling).1 == current,
        state.observed_all(seq![first, second], current, ceiling).1 == (if current > 0 {
            current - 1
        } else {
            0
        }),
{
    let one = seq![first];
    let two = seq![first, second];
    assert(one.drop_last() =~= seq![]);
    assert(two.drop_last() =~= one);
    reveal_with_fuel(Adaptation::observed_all, 3);
}

/// Fewer than eight good reports in a row change nothing.
proof fn lemma_good_reports(state: Adaptation, reports: Seq<u8>, current: u64, ceiling: u64)
    requires
        state.good == 0,
        reports.len() < 8,
        forall|i: int| 0 <= i < reports.len() ==> #[trigger] reports[i] <= 2,
    ensures
        state.observed_all(reports, current, ceiling).1 == current,
        state.observed_all(reports, current, ceiling).0.good == reports.len(),
    decreases reports.len(),
{
    if reports.len() > 0 {
        assert(forall|i: int|
            0 <= i < reports.len() - 1 ==> #[trigger] reports.drop_last()[i] == reports[i]);
        lemma_good_reports(state, reports.drop_last(), current, ceiling);
    }
}

/// A stream recovers slowly: of good reports in a row the first seven change nothing, and the
/// eighth steps up, unless the stream is at its ceiling.
pub proof fn law_eight_good_reports_step_up(
    state: Adaptation,
    reports: Seq<u8>,
    current: u64,
    ceiling: u64,
)
    requires
        state.good == 0,
        current <= ceiling,
        reports.len() <= 8,
        forall|i: int| 0 <= i < reports.len() ==> #[trigger] reports[i] <= 2,
    ensures
        state.observed_all(reports, current, ceiling).1 == (if reports.len() == 8 && current
            < ceiling {
            current + 1
        } else {
            current as int
        }),
{
    if reports.len() == 8 {
        assert(forall|i: int|
            0 <= i < reports.len() - 1 ==> #[trigger] reports.drop_last()[i] == reports[i]);
        lemma_good_reports(state, reports.drop_last(), current, ceiling);
    } else {
        lemma_good_reports(state, reports, current, ceiling);
    }
}

/// The difference of two numbers.
pub open spec fn distance(a: u64, b: u64) -> u64 {
    if a < b {
        (b - a) as u64
    } else {
        (a - b) as u64
    }
}

/// A number less another, zero where the other is larger.
pub open spec fn excess(a: u64, b: u64) -> u64 {
    if a < b {
        0
    } else {
        (a - b) as u64
    }
}

/// Notes that the encoder took a picture: one that it took more than a tenth of a second for
/// counts as backpressure.
pub fn note_written(metrics: &mut Metrics, elapsed_ns: u64)
    ensures
        *final(metrics) == (Metrics {
            video_backpressure: if elapsed_ns > 100_000_000 {
                old(metrics).video_backpressure.wrapping_add(1)
            } else {
                old(metrics).video_backpressure
            },
            ..*old(metrics)
        }),
{
    if elapsed_ns > 100_000_000 {
        crate::metrics::add(&mut metrics.video_backpressure, 1);
    }
}

/// Notes how long a picture took until it was encoded.
pub fn note_encoded(metrics: &mut Metrics, created: u64, now: u64)
    ensures
        *final(metrics) == (Metrics { video_encode: final(metrics).video_encode, ..*old(metrics) }),
        final(metrics).video_encode@ == crate::metrics::recorded(
            old(metrics).video_encode@,
            excess(now, created),
        ),
{
    metrics.video_encode.record(now.saturating_sub(created));
}

/// Notes that a picture of the given length was sent.
pub fn note_sent(metrics: &mut Metrics, length: usize)
    ensures
        *final(metrics) == (Metrics {
            video_tx_frames: old(metrics).video_tx_frames.wrapping_add(1),
            video_tx_bytes: old(metrics).video_tx_bytes.wrapping_add(length as u64),
            ..*old(metrics)
        }),
{
    crate::metrics::add(&mut metrics.video_tx_frames, 1);
    crate::metrics::add(&mut metrics.video_tx_bytes, length);
}

/// Notes that a picture came out of the decoder: its age, where its creation time is known and
/// not in the future, and how far that is from the age of the sound.
pub fn note_decoded(metrics: &mut Metrics, created: u64, now: u64)
    ensures
        created == 0 || now < created ==> *final(metrics) == *old(metrics),
        created > 0 && now >= created ==> {
            let age = (now - created) as u64;
            &&& *final(metrics) == (Metrics {
                video_frame_to_decode: final(metrics).video_frame_to_decode,
                video_age_us: age,
                av_decode_skew: final(metrics).av_decode_skew,
                ..*old(metrics)
            })
            &&& final(metrics).video_frame_to_decode@ == crate::metrics::recorded(
                old(metrics).video_frame_to_decode@,
                age,
            )
            &&& old(metrics).audio_age_us == 0 ==> final(metrics).av_decode_skew == old(
                metrics,
            ).av_decode_skew
            &&& old(metrics).audio_age_us > 0 ==> final(metrics).av_decode_skew@
                == crate::metrics::recorded(
                old(metrics).av_decode_skew@,
                distance(age, old(metrics).audio_age_us),
            )
        },
{
    if created > 0 && now >= created {
        let age: u64 = now - created;
        metrics.video_frame_to_decode.record(age);
        metrics.video_age_us = age;
        let audio_age: u64 = metrics.audio_age_us;
        if audio_age > 0 {
            let skew: u64 = if age < audio_age {
                audio_age - age
            } else {
                age - audio_age
            };
            metrics.av_decode_skew.record(skew);
        }
    }
}

/// How long a picture waits until it is shown, in microseconds.
pub open spec fn wait_of(created: u64, now: u64) -> u64 {
    if created == 0 {
        0
    } else {
        excess((created + PLAYOUT_US) as u64, now)
    }
}

/// A picture is shown 120 ms after it was made, or at once where that is over or where nobody knows when
/// it was made.
pub proof fn law_when_pictures_are_shown(created: u64, now: u64)
    requires
        created + 120_000 <= u64::MAX,
    ensures
        created == 0 ==> wait_of(created, now) == 0,
        created > 0 && now < created + 120_000 ==> now + wait_of(created, now) == created + 120_000,
        created > 0 && now >= created + 120_000 ==> wait_of(created, now) == 0,
{
}

/// How long a picture waits until it is shown, in microseconds: a picture without a creation time
/// does not wait.
pub fn remaining(created: u64, now: u64) -> (r: u64)
    requires
        created + PLAYOUT_US <= u64::MAX,
    ensures
        r == wait_of(created, now),
        r == (if created == 0 {
            0
        } else {
            excess((created + PLAYOUT_US) as u64, now)
        }),
{
    if created == 0 {
        0
    } else {
        (created + PLAYOUT_US).saturating_sub(now)
    }
}

/// Notes that a picture is ready to be shown.
pub fn note_ready(metrics: &mut Metrics, created: u64, now: u64)
    ensures
        *final(metrics) == (Metrics {
            video_ready_age: final(metrics).video_ready_age,
            video_rx_frames: old(metrics).video_rx_frames.wrapping_add(1),
            ..*old(metrics)
        }),
        created == 0 ==> final(metrics).video_ready_age == old(metrics).video_ready_age,
        created > 0 ==> final(metrics).video_ready_age@ == crate::metrics::recorded(
            old(metrics).video_ready_age@,
            excess(now, created),
        ),
{
    if created > 0 {
        metrics.video_ready_age.record(now.saturating_sub(created));
    }
    crate::metrics::add(&mut metrics.video_rx_frames, 1);
}

/// A picture that is shown on time is as old as the playout delay, whenever it was decoded before
/// that.
pub proof fn law_shared_deadline(created: u64, now: u64)
    requires
        0 < created,
        created + PLAYOUT_US <= u64::MAX,
        now <= created + PLAYOUT_US,
    ensures
        now + excess((created + PLAYOUT_US) as u64, now) == created + PLAYOUT_US,
{
}

/// How many reports at the end of a list, one after the other, are within bounds.
pub open spec fn run_within(reports: Seq<u8>, least: u8, most: u8) -> nat
    decreases reports.len(),
{
    if reports.len() > 0 && least <= reports.last() <= most {
        run_within(reports.drop_last(), least, most) + 1
    } else {
        0
    }
}

/// Such a run is at the end of the list.
proof fn lemma_run_within(reports: Seq<u8>, least: u8, most: u8)
    ensures
        run_within(reports, least, most) <= reports.len(),
        forall|k: int|
            reports.len() - run_within(reports, least, most) <= k < reports.len() ==> least
                <= #[trigger] reports[k] <= most,
    decreases reports.len(),
{
    if reports.len() > 0 && least <= reports.last() <= most {
        let front = reports.drop_last();
        lemma_run_within(front, least, most);
        assert forall|k: int|
            reports.len() - run_within(reports, least, most) <= k < reports.len() implies least
            <= #[trigger] reports[k] <= most by {
            if k < front.len() {
                assert(front[k] == reports[k]);
            }
        }
    }
}

/// What is counted is the run of good reports, or of bad ones, since the last step.
proof fn lemma_counts_are_runs(reports: Seq<u8>, current: u64, ceiling: u64)
    ensures
        ({
            let state = Adaptation { bad: 0, good: 0 }.observed_all(reports, current, ceiling).0;
            &&& state.good == run_within(reports, 0, 2) % 8
            &&& state.bad == run_within(reports, 13, 255) % 2
        }),
    decreases reports.len(),
{
    if reports.len() > 0 {
        lemma_counts_are_runs(reports.drop_last(), current, ceiling);
    }
}

/// How the level moves, over any list of reports since the beginning: at every eighth good report in
/// a row (at most two parts of 256 lost) it goes up by one, though not above the ceiling; at every
/// second bad report in a row (13 parts or more) it goes down by one, though not below the lowest;
/// at no other report it moves. A row ends with any report that is not of its kind.
pub proof fn law_level_moves_with_runs(reports: Seq<u8>, current: u64, ceiling: u64)
    requires
        reports.len() > 0,
    ensures
        ({
            let start = Adaptation { bad: 0, good: 0 };
            let before = start.observed_all(reports.drop_last(), current, ceiling).1;
            let after = start.observed_all(reports, current, ceiling).1;
            let good = run_within(reports, 0, 2);
            let bad = run_within(reports, 13, 255);
            if good > 0 && good % 8 == 0 {
                after == (if before < ceiling {
                    before + 1
                } else {
                    ceiling as int
                })
            } else if bad > 0 && bad % 2 == 0 {
                after == (if before > 0 {
                    before - 1
                } else {
                    0
                })
            } else {
                after == before
            }
        }),
{
    lemma_counts_are_runs(reports.drop_last(), current, ceiling);
}

/// A level is raised only by a report that, with the seven right before it, had at most two parts of
/// 256 lost; it is lowered only by a report that, with the one right before it, had 13 parts lost or
/// more; and after a report of any other kind no good report counts.
pub proof fn law_recovery_is_slow(reports: Seq<u8>, current: u64, ceiling: u64)
    requires
        reports.len() > 0,
        current <= ceiling,
    ensures
        ({
            let start = Adaptation { bad: 0, good: 0 };
            let before = start.observed_all(reports.drop_last(), current, ceiling).1;
            let (state, after) = start.observed_all(reports, current, ceiling);
            &&& after > before ==> reports.len() >= 8 && forall|k: int|
                reports.len() - 8 <= k < reports.len() ==> #[trigger] reports[k] <= 2
            &&& after < before ==> reports.len() >= 2 && reports.last() >= 13
                && reports[reports.len() - 2] >= 13
            &&& reports.last() > 2 ==> state.good == 0
            &&& reports.last() < 13 ==> state.bad == 0
        }),
{
    law_level_moves_with_runs(reports, current, ceiling);
    lemma_counts_are_runs(reports, current, ceiling);
    law_ceiling_holds(
        Adaptation { bad: 0, good: 0 },
        reports.drop_last(),
        current,
        ceiling,
    );
    lemma_run_within(reports, 0, 2);
    lemma_run_within(reports, 13, 255);
}

/// One channel of a point of a picture with three bytes for each point, row by row.
pub open spec fn channel_at(rgb: Seq<u8>, width: int, x: int, y: int, channel: int) -> int {
    rgb[(y * width + x) * 3 + channel] as int
}

/// Whether a point has a colour.
pub open spec fn is_colour(
    rgb: Seq<u8>,
    width: int,
    x: int,
    y: int,
    red: int,
    green: int,
    blue: int,
) -> bool {
    &&& channel_at(rgb, width, x, y, 0) == red
    &&& channel_at(rgb, width, x, y, 1) == green
    &&& channel_at(rgb, width, x, y, 2) == blue
}

/// Whether a point is in the middle ninth of a picture.
pub open spec fn in_middle(width: int, height: int, x: int, y: int) -> bool {
    width / 3 < x < 2 * width / 3 && height / 3 < y < 2 * height / 3
}

/// What stands at a point of the test pattern.
proof fn lemma_channel(
    width: int,
    height: int,
    index: int,
    tint: int,
    x: int,
    y: int,
    channel: int,
)
    requires
        0 <= x < width,
        0 <= y < height,
        0 <= tint,
        0 <= index,
        0 <= channel < 3,
    ensures
        channel_at(pattern(width, height, index, tint), width, x, y, channel) == pattern_value(
            width,
            height,
            index,
            tint,
            x,
            y,
            channel,
        ),
        pattern(width, height, index, tint).len() == width * height * 3,
{
    lemma_point(width, x, y, channel);
    assert((y * width + x) * 3 + channel < width * height * 3 && width * height * 3 > 0)
        by (nonlinear_arith)
        requires
            0 <= x < width,
            0 <= y < height,
            0 <= channel < 3,
    ;
    assert((y * width + x) * 3 + channel >= 0) by (nonlinear_arith)
        requires
            0 <= x < width,
            0 <= y,
            0 <= channel,
    ;
    let sixth = x * 6 / width;
    assert(0 <= sixth < 6) by (nonlinear_arith)
        requires
            sixth == x * 6 / width,
            0 <= x < width,
    ;
    let bar = (sixth + tint) % 6;
    let shade = 70 + (x / 32 + y / 32) % 2 * 10;
    let colour = bar_colour(bar, channel);
    assert(0 <= colour <= 255);
    assert(0 <= colour * shade / 100 <= 255) by (nonlinear_arith)
        requires
            0 <= colour <= 255,
            shade == 70 || shade == 80,
    ;
}

/// A picture of the test pattern has three bytes for each point.
pub proof fn law_pattern_length(width: int, height: int, index: int, tint: int)
    requires
        width >= 0,
        height >= 0,
    ensures
        pattern(width, height, index, tint).len() == width * height * 3,
{
    assert(width * height * 3 >= 0) by (nonlinear_arith)
        requires
            width >= 0,
            height >= 0,
    ;
}

/// Away from the line and from the middle, a point in the k-th sixth of the width has the colour of
/// the bar k, moved on by the tint: blue, green, yellow, red, violet or grey, at 70 percent, or at 80
/// in every other field of a grid of 32 points.
pub proof fn law_pattern_has_bars(
    width: int,
    height: int,
    index: int,
    tint: int,
    x: int,
    y: int,
    k: int,
)
    requires
        0 <= x < width,
        0 <= y < height,
        0 <= tint,
        0 <= index,
        0 <= k < 6,
        k * width <= 6 * x < (k + 1) * width,
        !in_middle(width, height, x, y),
        x - (7 * index) % width >= 6 || (7 * index) % width - x >= 6,
    ensures
        ({
            let rgb = pattern(width, height, index, tint);
            let bar = (k + tint) % 6;
            let percent = if (x / 32 + y / 32) % 2 == 0 {
                70int
            } else {
                80
            };
            &&& bar == 0 ==> is_colour(
                rgb,
                width,
                x,
                y,
                54 * percent / 100,
                117 * percent / 100,
                255 * percent / 100,
            )
            &&& bar == 1 ==> is_colour(
                rgb,
                width,
                x,
                y,
                25 * percent / 100,
                194 * percent / 100,
                162 * percent / 100,
            )
            &&& bar == 2 ==> is_colour(
                rgb,
                width,
                x,
                y,
                252 * percent / 100,
                190 * percent / 100,
                69 * percent / 100,
            )
            &&& bar == 3 ==> is_colour(
                rgb,
                width,
                x,
                y,
                241 * percent / 100,
                98 * percent / 100,
                108 * percent / 100,
            )
            &&& bar == 4 ==> is_colour(
                rgb,
                width,
                x,
                y,
                137 * percent / 100,
                99 * percent / 100,
                231 * percent / 100,
            )
            &&& bar == 5 ==> is_colour(
                rgb,
                width,
                x,
                y,
                231 * percent / 100,
                237 * percent / 100,
                248 * percent / 100,
            )
        }),
{
    assert(x * 6 / width == k) by (nonlinear_arith)
        requires
            k * width <= 6 * x < (k + 1) * width,
            width > 0,
    ;
    assert(index * 7 == 7 * index);
    lemma_channel(width, height, index, tint, x, y, 0);
    lemma_channel(width, height, index, tint, x, y, 1);
    lemma_channel(width, height, index, tint, x, y, 2);
}

/// Each sixth of a picture that is at least six points wide has a column, so all six bars are there.
pub proof fn law_each_sixth_has_a_column(width: int, k: int) -> (x: int)
    requires
        width >= 6,
        0 <= k < 6,
    ensures
        0 <= x < width,
        k * width <= 6 * x < (k + 1) * width,
{
    let x = (k * width + 5) / 6;
    assert((k + 1) * width == k * width + width) by (nonlinear_arith);
    assert(0 <= k * width <= 5 * width) by (nonlinear_arith)
        requires
            0 <= k <= 5,
            width >= 0,
    ;
    x
}

/// Points in different sixths of a row, both away from the line and from the middle and under fields
/// of the grid of one kind, differ in colour.
pub proof fn law_bars_differ(
    width: int,
    height: int,
    index: int,
    tint: int,
    y: int,
    x1: int,
    k1: int,
    x2: int,
    k2: int,
)
    requires
        0 <= x1 < width,
        0 <= x2 < width,
        0 <= y < height,
        0 <= tint,
        0 <= index,
        0 <= k1 < 6,
        0 <= k2 < 6,
        k1 != k2,
        k1 * width <= 6 * x1 < (k1 + 1) * width,
        k2 * width <= 6 * x2 < (k2 + 1) * width,
        !in_middle(width, height, x1, y),
        !in_middle(width, height, x2, y),
        x1 - (7 * index) % width >= 6 || (7 * index) % width - x1 >= 6,
        x2 - (7 * index) % width >= 6 || (7 * index) % width - x2 >= 6,
        (x1 / 32 + y / 32) % 2 == (x2 / 32 + y / 32) % 2,
    ensures
        exists|channel: int|
            0 <= channel < 3 && #[trigger] channel_at(
                pattern(width, height, index, tint),
                width,
                x1,
                y,
                channel,
            ) != channel_at(pattern(width, height, index, tint), width, x2, y, channel),
{
    law_pattern_has_bars(width, height, index, tint, x1, y, k1);
    law_pattern_has_bars(width, height, index, tint, x2, y, k2);
    let rgb = pattern(width, height, index, tint);
    assert((k1 + tint) % 6 != (k2 + tint) % 6);
    let blue1 = channel_at(rgb, width, x1, y, 2);
    let blue2 = channel_at(rgb, width, x2, y, 2);
    assert(blue1 != blue2);
}

/// Away from the middle, exactly those points are white that are less than six columns from the line,
/// which stands at seven times the picture's number, wrapped around at the width.
pub proof fn law_line_moves(
    width: int,
    height: int,
    index: int,
    tint: int,
    x: int,
    y: int,
)
    requires
        0 <= x < width,
        0 <= y < height,
        0 <= tint,
        0 <= index,
        !in_middle(width, height, x, y),
    ensures
        is_colour(pattern(width, height, index, tint), width, x, y, 255, 255, 255) <==> -6 < x - (7
            * index) % width < 6,
{
    assert(index * 7 == 7 * index);
    lemma_channel(width, height, index, tint, x, y, 0);
    lemma_channel(width, height, index, tint, x, y, 1);
    lemma_channel(width, height, index, tint, x, y, 2);
    let sixth = x * 6 / width;
    assert(0 <= sixth < 6) by (nonlinear_arith)
        requires
            sixth == x * 6 / width,
            0 <= x < width,
    ;
    let colour = bar_colour((sixth + tint) % 6, 0);
    let shade = 70 + (x / 32 + y / 32) % 2 * 10;
    assert(colour * shade / 100 < 255) by (nonlinear_arith)
        requires
            0 <= colour <= 252,
            shade == 70 || shade == 80,
    ;
}

/// The middle is dark for fifteen pictures, bright for the next fifteen, and so on.
pub proof fn law_middle_alternates(
    width: int,
    height: int,
    index: int,
    tint: int,
    x: int,
    y: int,
)
    requires
        0 <= x < width,
        0 <= y < height,
        0 <= tint,
        0 <= index,
        in_middle(width, height, x, y),
    ensures
        index % 30 < 15 ==> is_colour(
            pattern(width, height, index, tint),
            width,
            x,
            y,
            24,
            31,
            44,
        ),
        index % 30 >= 15 ==> is_colour(
            pattern(width, height, index, tint),
            width,
            x,
            y,
            241,
            246,
            255,
        ),
{
    lemma_channel(width, height, index, tint, x, y, 0);
    lemma_channel(width, height, index, tint, x, y, 1);
    lemma_channel(width, height, index, tint, x, y, 2);
}

/// The pictures of every preset are sixteen to nine, and a receiver takes them.
pub proof fn law_presets_are_wide(quality: Quality)
    ensures
        quality.size().0 * 9 == quality.size().1 * 16,
        quality.size().0 <= 1280 && quality.size().1 <= 720,
        5 <= quality.rate() <= 15,
        90_000u32 / quality.rate() * quality.rate() == 90_000,
{
}

/// A higher rung costs more bits and has larger pictures; two different ones are never alike.
pub proof fn law_rungs_differ(low: Quality, high: Quality)
    requires
        low.height() < high.height(),
    ensures
        low.target() < high.target(),
        low.size().0 < high.size().0,
        high.height() <= 3,
{
}

/// How far two times are apart does not depend on which is named first, and is none only for equal ones;
/// what is left of a time after another is none for a later one.
pub proof fn law_distances(a: u64, b: u64)
    ensures
        distance(a, b) == distance(b, a),
        a <= b ==> a + distance(a, b) == b,
        a >= b ==> b + excess(a, b) == a,
        a <= b ==> excess(a, b) == 0,
{
}

/// The sum of bytes counts every byte once, wherever it stands.
pub proof fn law_sum_of_bytes(a: Seq<u8>, b: Seq<u8>)
    ensures
        byte_sum(a + b) == byte_sum(a) + byte_sum(b),
        b.len() == 1 ==> byte_sum(b) == b[0],
        b.len() == 0 ==> byte_sum(b) == 0,
    decreases b.len(),
{
    if b.len() == 0 {
        assert(a + b =~= a);
    } else {
        law_sum_of_bytes(a, b.drop_last());
        assert((a + b).drop_last() =~= a + b.drop_last());
        if b.len() == 1 {
            assert(b.drop_last() =~= seq![]);
        }
    }
}

/// Reports about other streams, and reports to a stream that does not adapt, change nothing; the others
/// never lift the level above that of the chosen preset.
pub proof fn law_reports_about_others_are_ignored(
    state: Adaptation,
    own: Option<u32>,
    subject: u32,
    loss: u8,
    adaptive: bool,
    ceiling: Quality,
    level: u64,
)
    ensures
        ({
            let (after, next) = state.reported(own, subject, loss, adaptive, ceiling, level);
            &&& own is None || own->Some_0 != subject || !adaptive ==> after == state && next == level
            &&& level <= ceiling.height() ==> next <= ceiling.height()
            &&& own == Some(subject) && adaptive ==> (after, next) == state.observed(
                loss,
                level,
                ceiling.height(),
            )
        }),
{
    if level <= ceiling.height() {
        law_one_step_at_a_time(state, loss, level, ceiling.height());
    }
}

} // verus!
