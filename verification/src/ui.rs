//! The decisions behind the window: what a call is started with, when the window closes, and what
//! its labels say.
use crate::address::{Endpoint, Ip};
use crate::audio::{DeviceInfo, Profile, Sink, Source};
use crate::call;
use crate::text;
use crate::video;
use crate::video::{Quality, VideoSource};
use vstd::prelude::*;

verus! {

/// How the window is started. Its place is the bit pattern of a 32 bit floating point number.
#[derive(Clone, Debug)]
pub struct Options {
    pub id: String,
    pub room: String,
    pub server: Endpoint,
    pub auto_join: bool,
    pub duration: u64,
    pub stats_file: Option<String>,
    pub screenshot: Option<String>,
    pub screenshot_after: u64,
    pub exit_after: u64,
    pub window_x: u32,
    pub ffmpeg: String,
    pub keyframe_seconds: u32,
    pub media_port: Option<u16>,
    pub peer_relay: Option<u16>,
    pub quality: Quality,
    pub audio_profile: Profile,
    pub audio_complexity: u8,
    pub no_audio_dtx: bool,
}

impl Default for Options {
    fn default() -> (r: Self)
        ensures
            r.id@ == "a"@,
            r.room@ == "demo"@,
            r.server == (Endpoint { ip: Ip::V4(0x7f00_0001), port: 8790 }),
            !r.auto_join,
            r.duration == 0,
            r.stats_file is None,
            r.screenshot is None,
            r.screenshot_after == 8,
            r.exit_after == 0,
            r.window_x == 0x42a0_0000,
            r.ffmpeg@ == "ffmpeg"@,
            r.keyframe_seconds == 1,
            r.media_port is None,
            r.peer_relay is None,
            r.quality == Quality::Standard,
            r.audio_profile == Profile::Standard,
            r.audio_complexity == 10,
            !r.no_audio_dtx,
    {
        Options {
            id: String::from_str("a"),
            room: String::from_str("demo"),
            server: Endpoint { ip: Ip::V4(0x7f00_0001), port: 8790 },
            auto_join: false,
            duration: 0,
            stats_file: None,
            screenshot: None,
            screenshot_after: 8,
            exit_after: 0,
            window_x: 0x42a0_0000,
            ffmpeg: String::from_str("ffmpeg"),
            keyframe_seconds: 1,
            media_port: None,
            peer_relay: None,
            quality: Quality::Standard,
            audio_profile: Profile::Standard,
            audio_complexity: 10,
            no_audio_dtx: false,
        }
    }
}

/// What is asked of a window.
#[derive(Clone, Copy, Debug, PartialEq, Eq, Structural)]
pub enum Closing {
    /// Stay open.
    Stay,
    /// Leave the call first, and stay open until it has ended.
    LeaveFirst,
    /// Close.
    Close,
}

/// What is done with a picture on screen.
#[derive(Clone, Copy, Debug, PartialEq, Eq, Structural)]
pub enum Refresh {
    Keep,
    Load,
    Clear,
}

/// What is chosen in the window, and how far the window has come.
pub struct Station {
    pub launch: Options,
    pub source: Source,
    pub sink: Sink,
    pub video_source: VideoSource,
    pub quality: Quality,
    pub camera: String,
    pub input_device: String,
    pub output_device: String,
    pub muted: bool,
    pub camera_off: bool,
    pub adaptive: bool,
    pub closing: bool,
    pub screenshot_requested: bool,
    pub local_id: u64,
    pub remote_id: u64,
    pub error: Option<String>,
}

/// A copy of a text, where there is one.
fn copied(text: &Option<String>) -> (r: Option<String>)
    ensures
        match *text {
            Some(text) => r matches Some(copy) && copy@ == text@,
            None => r is None,
        },
{
    match text {
        Some(text) => Some(String::from_str(text.as_str())),
        None => None,
    }
}

/// The name of a device, where one is chosen.
fn chosen(name: &String) -> (r: Option<String>)
    ensures
        name@.len() == 0 ==> r is None,
        name@.len() > 0 ==> (r matches Some(copy) && copy@ == name@),
{
    let list = text::characters(name.as_str());
    if list.len() == 0 {
        None
    } else {
        Some(String::from_str(name.as_str()))
    }
}

impl Station {
    /// A window with nothing chosen yet: a tone and a test pattern, and no loudspeaker.
    pub fn new(launch: Options) -> (r: Self)
        ensures
            r.launch == launch,
            r.source == Source::Tone,
            r.sink == Sink::Null,
            r.video_source == VideoSource::Pattern,
            r.quality == launch.quality,
            r.camera@ == "0"@,
            r.input_device@ == ""@,
            r.output_device@ == ""@,
            !r.muted && !r.camera_off && r.adaptive && !r.closing && !r.screenshot_requested,
            r.local_id == 0,
            r.remote_id == 0,
            r.error is None,
    {
        let quality = launch.quality;
        Station {
            launch,
            source: Source::Tone,
            sink: Sink::Null,
            video_source: VideoSource::Pattern,
            quality,
            camera: String::from_str("0"),
            input_device: String::from_str(""),
            output_device: String::from_str(""),
            muted: false,
            camera_off: false,
            adaptive: true,
            closing: false,
            screenshot_requested: false,
            local_id: 0,
            remote_id: 0,
            error: None,
        }
    }

    /// Whether the window joins a call on its own, which it does once.
    pub fn takes_auto_join(&mut self) -> (r: bool)
        ensures
            r == old(self).launch.auto_join,
            *final(self) == (Station {
                launch: Options { auto_join: false, ..old(self).launch },
                ..*old(self)
            }),
    {
        let r = self.launch.auto_join;
        self.launch.auto_join = false;
        r
    }

    /// Prepares for a new call, unless one is running.
    pub fn begin(&mut self, running: bool) -> (r: bool)
        ensures
            r == !running,
            running ==> *final(self) == *old(self),
            !running ==> *final(self) == (Station {
                error: None,
                muted: false,
                camera_off: false,
                ..*old(self)
            }),
    {
        if running {
            return false;
        }
        self.error = None;
        self.muted = false;
        self.camera_off = false;
        true
    }

    /// What a call is started with: the first participant has a lower tone than all others.
    pub fn call_options(&self) -> (r: call::Options)
        ensures
            r.id@ == self.launch.id@,
            r.media_port == self.launch.media_port,
            r.peer_relay == self.launch.peer_relay,
            r.adaptive == self.adaptive,
            r.room@ == self.launch.room@,
            r.server == self.launch.server,
            r.source == self.source,
            r.sink == self.sink,
            self.input_device@.len() == 0 ==> r.input_device is None,
            self.input_device@.len() > 0 ==> (r.input_device matches Some(name) && name@
                == self.input_device@),
            self.output_device@.len() == 0 ==> r.output_device is None,
            self.output_device@.len() > 0 ==> (r.output_device matches Some(name) && name@
                == self.output_device@),
            r.tone_hz == (if self.launch.id@ == "a"@ {
                0x43dc_0000u32
            } else {
                0x4425_0000u32
            }),
            r.bitrate is None,
            r.audio_profile == self.launch.audio_profile,
            r.audio_complexity == self.launch.audio_complexity,
            r.no_audio_dtx == self.launch.no_audio_dtx,
            r.duration == self.launch.duration,
            r.connect_timeout == 120,
            match self.launch.stats_file {
                Some(path) => r.stats_file matches Some(copy) && copy@ == path@,
                None => r.stats_file is None,
            },
            r.no_stdin,
            r.video.video == self.video_source,
            r.video.quality == self.quality,
            r.video.camera@ == self.camera@,
            r.video.ffmpeg@ == self.launch.ffmpeg@,
            r.video.keyframe_seconds == self.launch.keyframe_seconds,
    {
        call::Options {
            id: String::from_str(self.launch.id.as_str()),
            media_port: self.launch.media_port,
            peer_relay: self.launch.peer_relay,
            adaptive: self.adaptive,
            room: String::from_str(self.launch.room.as_str()),
            server: self.launch.server,
            source: self.source,
            sink: self.sink,
            input_device: chosen(&self.input_device),
            output_device: chosen(&self.output_device),
            tone_hz: if text::same_text(self.launch.id.as_str(), "a") {
                0x43dc_0000
            } else {
                0x4425_0000
            },
            bitrate: None,
            audio_profile: self.launch.audio_profile,
            audio_complexity: self.launch.audio_complexity,
            no_audio_dtx: self.launch.no_audio_dtx,
            duration: self.launch.duration,
            connect_timeout: 120,
            stats_file: copied(&self.launch.stats_file),
            no_stdin: true,
            video: video::Options {
                video: self.video_source,
                quality: self.quality,
                camera: String::from_str(self.camera.as_str()),
                ffmpeg: String::from_str(self.launch.ffmpeg.as_str()),
                keyframe_seconds: self.launch.keyframe_seconds,
            },
        }
    }

    /// Mutes the microphone or opens it again, and returns the command for that.
    pub fn toggle_mute(&mut self) -> (r: &'static str)
        ensures
            *final(self) == (Station { muted: !old(self).muted, ..*old(self) }),
            r@ == (if old(self).muted {
                "unmute"@
            } else {
                "mute"@
            }),
    {
        self.muted = !self.muted;
        if self.muted {
            "mute"
        } else {
            "unmute"
        }
    }

    /// Turns the camera off or on again, and returns the command for that.
    pub fn toggle_camera(&mut self) -> (r: &'static str)
        ensures
            *final(self) == (Station { camera_off: !old(self).camera_off, ..*old(self) }),
            r@ == (if old(self).camera_off {
                "camera-on"@
            } else {
                "camera-off"@
            }),
    {
        self.camera_off = !self.camera_off;
        if self.camera_off {
            "camera-off"
        } else {
            "camera-on"
        }
    }

    /// Whether the window is asked to close: by its user, or because its time is over.
    pub open spec fn is_asked(self, requested: bool, elapsed_s: u64) -> bool {
        requested || (self.launch.exit_after > 0 && elapsed_s >= self.launch.exit_after)
    }

    /// What is asked of the window.
    pub open spec fn closing_of(self, requested: bool, elapsed_s: u64, running: bool) -> Closing {
        if self.is_asked(requested, elapsed_s) && running {
            Closing::LeaveFirst
        } else if (self.is_asked(requested, elapsed_s) || self.closing) && !running {
            Closing::Close
        } else {
            Closing::Stay
        }
    }

    /// Why the window closes, said once: when it is first asked to.
    pub fn exit_reason(&self, requested: bool, elapsed_s: u64) -> (r: Option<&'static str>)
        ensures
            !self.is_asked(requested, elapsed_s) || self.closing ==> r is None,
            self.is_asked(requested, elapsed_s) && !self.closing ==> (r matches Some(reason)
                && reason@ == (if requested {
                "window close requested"@
            } else {
                "exit-after timer"@
            })),
    {
        let timed = self.launch.exit_after > 0 && elapsed_s >= self.launch.exit_after;
        if self.closing || !(requested || timed) {
            None
        } else if requested {
            Some("window close requested")
        } else {
            Some("exit-after timer")
        }
    }

    /// Whether the window closes: a call that is running is left first.
    pub fn close(&mut self, requested: bool, elapsed_s: u64, running: bool) -> (r: Closing)
        ensures
            *final(self) == (Station {
                closing: old(self).closing || old(self).is_asked(requested, elapsed_s),
                ..*old(self)
            }),
            r == old(self).closing_of(requested, elapsed_s, running),
    {
        let timed = self.launch.exit_after > 0 && elapsed_s >= self.launch.exit_after;
        if requested || timed {
            self.closing = true;
            if running {
                return Closing::LeaveFirst;
            }
        }
        if self.closing && !running {
            Closing::Close
        } else {
            Closing::Stay
        }
    }

    /// Whether the window is to be photographed now, which happens once.
    pub fn takes_screenshot(&mut self, elapsed_s: u64) -> (r: bool)
        ensures
            r == (old(self).launch.screenshot is Some && !old(self).screenshot_requested
                && elapsed_s >= old(self).launch.screenshot_after),
            *final(self) == (Station {
                screenshot_requested: old(self).screenshot_requested || r,
                ..*old(self)
            }),
    {
        if self.launch.screenshot.is_some() && !self.screenshot_requested && elapsed_s
            >= self.launch.screenshot_after {
            self.screenshot_requested = true;
            return true;
        }
        false
    }

    /// What is said of the pictures that are sent.
    pub fn sending_label(&self, level: u64) -> (r: String)
        ensures
            r@ == "Sending: "@ + video::quality_at(level).words() + " · adaptation "@ + (
            if self.adaptive {
                "on"@
            } else {
                "off"@
            }),
    {
        let words = Quality::from_level(level).label();
        let mut list = text::characters("Sending: ");
        text::write_text(&mut list, words);
        text::write_text(&mut list, " · adaptation ");
        if self.adaptive {
            text::write_text(&mut list, "on");
        } else {
            text::write_text(&mut list, "off");
        }
        text::string_from(&list)
    }
}

/// What is done with a picture on screen: a picture is known by its creation time, and shown until
/// there is another or none.
pub fn refresh(created: Option<u64>, shown: &mut u64) -> (r: Refresh)
    ensures
        match created {
            Some(id) => {
                &&& *final(shown) == id
                &&& r == (if id == *old(shown) {
                    Refresh::Keep
                } else {
                    Refresh::Load
                })
            },
            None => *final(shown) == 0 && r == Refresh::Clear,
        },
{
    match created {
        Some(id) => {
            if id == *shown {
                Refresh::Keep
            } else {
                *shown = id;
                Refresh::Load
            }
        },
        None => {
            *shown = 0;
            Refresh::Clear
        },
    }
}

/// Whether a picture is fresh: less than a second has passed since it came.
pub fn is_live(received_us: Option<u64>, now_us: u64) -> (r: bool)
    ensures
        r == (received_us matches Some(since) && now_us - since < 1_000_000),
{
    match received_us {
        Some(since) => now_us < since || now_us - since < 1_000_000,
        None => false,
    }
}

/// The names of the devices that can record, or play, in their order; a device without a name
/// cannot be chosen.
pub open spec fn named(devices: Seq<DeviceInfo>, input: bool) -> Seq<Seq<char>>
    decreases devices.len(),
{
    if devices.len() == 0 {
        seq![]
    } else {
        let before = named(devices.drop_last(), input);
        let device = devices.last();
        let able = if input {
            device.input
        } else {
            device.output
        };
        match device.name {
            Some(name) if able => before.push(name@),
            _ => before,
        }
    }
}

/// The names of the devices that can record, and of those that can play.
pub fn device_names(devices: &Vec<DeviceInfo>) -> (r: (Vec<String>, Vec<String>))
    ensures
        text::strings(r.0@) == named(devices@, true),
        text::strings(r.1@) == named(devices@, false),
{
    let mut inputs: Vec<String> = Vec::new();
    let mut outputs: Vec<String> = Vec::new();
    let mut i: usize = 0;
    assert(text::strings(inputs@) =~= seq![]);
    assert(text::strings(outputs@) =~= seq![]);
    while i < devices.len()
        invariant
            i <= devices@.len(),
            text::strings(inputs@) == named(devices@.take(i as int), true),
            text::strings(outputs@) == named(devices@.take(i as int), false),
        decreases devices@.len() - i,
    {
        let ghost before = (text::strings(inputs@), text::strings(outputs@));
        assert(devices@.take(i + 1).drop_last() =~= devices@.take(i as int));
        if let Some(name) = &devices[i].name {
            if devices[i].input {
                inputs.push(String::from_str(name.as_str()));
                assert(text::strings(inputs@) =~= before.0.push(name@));
            }
            if devices[i].output {
                outputs.push(String::from_str(name.as_str()));
                assert(text::strings(outputs@) =~= before.1.push(name@));
            }
        }
        i += 1;
    }
    assert(devices@.take(i as int) =~= devices@);
    (inputs, outputs)
}

/// What is said of a number of frames, where any was counted.
pub fn frames_label(frames: Option<u64>) -> (r: String)
    ensures
        r@ == (match frames {
            Some(count) => text::decimal(count as nat) + " frames"@,
            None => "—"@,
        }),
{
    match frames {
        Some(count) => {
            let mut list = text::number(count);
            text::write_text(&mut list, " frames");
            text::string_from(&list)
        },
        None => String::from_str("—"),
    }
}

/// Whether the state of a call is an error.
pub fn is_error(state: &str) -> (r: bool)
    ensures
        r == ("Error:"@.is_prefix_of(state@) || "error:"@.is_prefix_of(state@)),
{
    let list = text::characters(state);
    let upper = text::characters("Error:");
    let lower = text::characters("error:");
    text::starts_with(&list, &upper) || text::starts_with(&list, &lower)
}

/// What a chosen source of sound is called.
pub fn source_label(source: Source) -> (r: &'static str)
    ensures
        r@ == (if source == Source::Tone {
            "Test tone"@
        } else {
            "Microphone"@
        }),
{
    if source == Source::Tone {
        "Test tone"
    } else {
        "Microphone"
    }
}

/// What a chosen output is called.
pub fn sink_label(sink: Sink) -> (r: &'static str)
    ensures
        r@ == (if sink == Sink::Null {
            "Silent test"@
        } else {
            "Headphones / speaker"@
        }),
{
    if sink == Sink::Null {
        "Silent test"
    } else {
        "Headphones / speaker"
    }
}

/// What a chosen source of pictures is called.
pub fn video_label(source: VideoSource) -> (r: &'static str)
    ensures
        r@ == (match source {
            VideoSource::Off => "No outgoing video"@,
            VideoSource::Pattern => "Test pattern"@,
            VideoSource::Camera => "Camera"@,
        }),
{
    match source {
        VideoSource::Off => "No outgoing video",
        VideoSource::Pattern => "Test pattern",
        VideoSource::Camera => "Camera",
    }
}

/// A window that is asked to close while a call is running leaves the call, stays open for as long
/// as the call runs, and closes at the first look after that, whatever is asked by then.
pub proof fn law_window_closes_after_call(
    station: Station,
    requested: bool,
    elapsed_s: u64,
    again: bool,
    later_s: u64,
)
    requires
        station.is_asked(requested, elapsed_s),
    ensures
        ({
            let waiting = Station { closing: true, ..station };
            &&& station.closing_of(requested, elapsed_s, true) == Closing::LeaveFirst
            &&& waiting.closing_of(again, later_s, true) != Closing::Close
            &&& waiting.closing_of(again, later_s, false) == Closing::Close
        }),
{
}

/// A device's name can be chosen exactly if the device has one and can do what is asked for.
pub proof fn law_which_devices_can_be_chosen(
    devices: Seq<DeviceInfo>,
    input: bool,
    name: Seq<char>,
)
    ensures
        named(devices, input).contains(name) <==> exists|i: int|
            0 <= i < devices.len() && (#[trigger] devices[i]).suits(input, name),
        named(devices, input).len() <= devices.len(),
    decreases devices.len(),
{
    let all = named(devices, input);
    if devices.len() > 0 {
        let front = devices.drop_last();
        let last = devices.len() - 1;
        let before = named(front, input);
        law_which_devices_can_be_chosen(front, input, name);
        assert forall|i: int| 0 <= i < front.len() implies #[trigger] front[i] == devices[i] by {}
        if before.contains(name) {
            let k = choose|k: int| 0 <= k < before.len() && before[k] == name;
            assert(all[k] == name);
            let i = choose|i: int| 0 <= i < front.len() && (#[trigger] front[i]).suits(input, name);
            assert(devices[i].suits(input, name));
        }
        if devices[last].suits(input, name) {
            assert(all == before.push(name));
            assert(all[before.len() as int] == name);
        }
        if all.contains(name) {
            let k = choose|k: int| 0 <= k < all.len() && all[k] == name;
            if k < before.len() {
                assert(before[k] == name);
                assert(before.contains(name));
            } else {
                assert(devices[last].suits(input, name));
            }
        }
        if exists|i: int| 0 <= i < devices.len() && (#[trigger] devices[i]).suits(input, name) {
            let i = choose|i: int|
                0 <= i < devices.len() && (#[trigger] devices[i]).suits(input, name);
            if i < last {
                assert(front[i].suits(input, name));
            }
        }
    }
}

/// A window is asked to close by its user, or when it has been open for the seconds that it was given, if
/// it was given any.
pub proof fn law_when_a_window_is_asked_to_close(
    station: Station,
    requested: bool,
    elapsed_s: u64,
)
    ensures
        requested ==> station.is_asked(requested, elapsed_s),
        !requested && station.launch.exit_after == 0 ==> !station.is_asked(requested, elapsed_s),
        !requested && station.launch.exit_after > 0 ==> (station.is_asked(requested, elapsed_s)
            <==> station.launch.exit_after <= elapsed_s),
        !station.is_asked(requested, elapsed_s) && !station.closing ==> station.closing_of(
            requested,
            elapsed_s,
            true,
        ) == Closing::Stay && station.closing_of(requested, elapsed_s, false) == Closing::Stay,
{
}

} // verus!
