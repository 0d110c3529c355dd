//! The course of a call, from joining a room to its end, as decisions on what has happened.
use crate::audio::Source;
use crate::call::{relay_sdp, validate_sdp, SdpError};
use crate::metrics::Metrics;
use crate::screen;
use crate::text;
use crate::video::{Quality, VideoSource};
use vstd::prelude::*;

verus! {

/// What a participant can type.
#[derive(Clone, Copy, Debug, PartialEq, Eq, Structural)]
pub enum Command {
    Mute,
    Unmute,
    CameraOff,
    CameraOn,
    Quality(Quality),
    Quit,
    Stats,
    Help,
}

/// The command that a line of input stands for; space around it does not count.
pub open spec fn command_of(line: Seq<char>) -> Command {
    let word = text::trimmed(line);
    if word == "mute"@ {
        Command::Mute
    } else if word == "unmute"@ {
        Command::Unmute
    } else if word == "camera-off"@ {
        Command::CameraOff
    } else if word == "camera-on"@ {
        Command::CameraOn
    } else if word == "quality-tiny"@ {
        Command::Quality(Quality::Tiny)
    } else if word == "quality-minimal"@ {
        Command::Quality(Quality::Minimal)
    } else if word == "quality-low"@ {
        Command::Quality(Quality::Low)
    } else if word == "quality-standard"@ {
        Command::Quality(Quality::Standard)
    } else if word == "quit"@ || word == "leave"@ {
        Command::Quit
    } else if word == "stats"@ {
        Command::Stats
    } else {
        Command::Help
    }
}

fn is_word(word: &Vec<char>, name: &str) -> (r: bool)
    ensures
        r == (word@ == name@),
{
    let name = text::characters(name);
    text::same(word, &name)
}

/// Reads a line of input.
pub fn parse_command(line: &str) -> (r: Command)
    ensures
        r == command_of(line@),
{
    let all = text::characters(line);
    let word = text::trim(&all);
    if is_word(&word, "mute") {
        Command::Mute
    } else if is_word(&word, "unmute") {
        Command::Unmute
    } else if is_word(&word, "camera-off") {
        Command::CameraOff
    } else if is_word(&word, "camera-on") {
        Command::CameraOn
    } else if is_word(&word, "quality-tiny") {
        Command::Quality(Quality::Tiny)
    } else if is_word(&word, "quality-minimal") {
        Command::Quality(Quality::Minimal)
    } else if is_word(&word, "quality-low") {
        Command::Quality(Quality::Low)
    } else if is_word(&word, "quality-standard") {
        Command::Quality(Quality::Standard)
    } else if is_word(&word, "quit") || is_word(&word, "leave") {
        Command::Quit
    } else if is_word(&word, "stats") {
        Command::Stats
    } else {
        Command::Help
    }
}

impl Command {
    /// What is said in answer to a command, if anything.
    pub fn reply(self) -> (r: Option<&'static str>)
        ensures
            match self {
                Command::Mute => r matches Some(words) && words@ == "muted"@,
                Command::Unmute => r matches Some(words) && words@ == "unmuted"@,
                Command::CameraOff => r matches Some(words) && words@ == "camera off"@,
                Command::CameraOn => r matches Some(words) && words@ == "camera on"@,
                Command::Help => r matches Some(words) && words@
                    == "commands: mute, unmute, stats, quit"@,
                _ => r is None,
            },
    {
        match self {
            Command::Mute => Some("muted"),
            Command::Unmute => Some("unmuted"),
            Command::CameraOff => Some("camera off"),
            Command::CameraOn => Some("camera on"),
            Command::Help => Some("commands: mute, unmute, stats, quit"),
            _ => None,
        }
    }

    /// Carries a command out on the microphone and on what is shown.
    pub fn apply(self, source: VideoSource, muted: &mut bool, view: &mut screen::View)
        ensures
            *final(muted) == (match self {
                Command::Mute => true,
                Command::Unmute => false,
                _ => *old(muted),
            }),
            *final(view) == (match self {
                Command::CameraOff => screen::View { enabled: false, ..*old(view) },
                Command::CameraOn => screen::View {
                    enabled: source != VideoSource::Off,
                    ..*old(view)
                },
                Command::Quality(quality) => screen::View {
                    quality: quality.height(),
                    ..*old(view)
                },
                _ => *old(view),
            }),
    {
        match self {
            Command::Mute => {
                *muted = true;
            },
            Command::Unmute => {
                *muted = false;
            },
            Command::CameraOff => {
                view.enabled = false;
            },
            Command::CameraOn => {
                view.enabled = source != VideoSource::Off;
            },
            Command::Quality(quality) => {
                view.quality = quality.level();
            },
            _ => {},
        }
    }
}

/// Why a call ends as it should.
#[derive(Clone, Copy, Debug, PartialEq, Eq, Structural)]
pub enum Ending {
    /// The program was interrupted.
    Interrupted,
    /// The participant left.
    Left,
    /// The connection was closed.
    Closed,
    /// The call has lasted as long as it was meant to.
    Duration,
    /// The other participant has left.
    PeerLeft,
}

impl Ending {
    /// The reason in words.
    pub fn words(self) -> (r: &'static str)
        ensures
            r@ == (match self {
                Ending::Interrupted => "interrupted"@,
                Ending::Left => "left"@,
                Ending::Closed => "connection closed"@,
                Ending::Duration => "duration reached"@,
                Ending::PeerLeft => "peer left"@,
            }),
    {
        match self {
            Ending::Interrupted => "interrupted",
            Ending::Left => "left",
            Ending::Closed => "connection closed",
            Ending::Duration => "duration reached",
            Ending::PeerLeft => "peer left",
        }
    }
}

/// Why a call ends in an error.
#[derive(Clone, Copy, Debug, PartialEq, Eq, Structural)]
pub enum SessionError {
    MediaFailed,
    SecondVideoTrack,
    SecondAudioTrack,
    NoAudio,
    ConnectTimeout,
    PeerGone,
    SilentMicrophone,
    DeviceStopped,
    RepeatedDescription,
    UnexpectedDescription,
    Sdp(SdpError),
}

impl SessionError {
    /// The error in words.
    pub fn message(self) -> (r: &'static str)
        ensures
            r@ == (match self {
                SessionError::MediaFailed => "media connection failed"@,
                SessionError::SecondVideoTrack => "unexpected additional video track"@,
                SessionError::SecondAudioTrack => "unexpected additional audio track"@,
                SessionError::NoAudio => "no audio received during the call"@,
                SessionError::ConnectTimeout => "connection timeout: start a second instance with another --id in the same room"@,
                SessionError::PeerGone => "peer disconnected for more than twelve seconds"@,
                SessionError::SilentMicrophone => "microphone produced no samples; check macOS permission and device selection"@,
                SessionError::DeviceStopped => "audio device stopped; check device connection and microphone permissions"@,
                SessionError::RepeatedDescription => "unexpected repeated session description"@,
                SessionError::UnexpectedDescription => "unexpected signaling description type"@,
                SessionError::Sdp(error) => error.words(),
            }),
    {
        match self {
            SessionError::MediaFailed => "media connection failed",
            SessionError::SecondVideoTrack => "unexpected additional video track",
            SessionError::SecondAudioTrack => "unexpected additional audio track",
            SessionError::NoAudio => "no audio received during the call",
            SessionError::ConnectTimeout => "connection timeout: start a second instance with another --id in the same room",
            SessionError::PeerGone => "peer disconnected for more than twelve seconds",
            SessionError::SilentMicrophone => "microphone produced no samples; check macOS permission and device selection",
            SessionError::DeviceStopped => "audio device stopped; check device connection and microphone permissions",
            SessionError::RepeatedDescription => "unexpected repeated session description",
            SessionError::UnexpectedDescription => "unexpected signaling description type",
            SessionError::Sdp(error) => error.message(),
        }
    }
}

/// The states of a connection that matter to a call.
#[derive(Clone, Copy, Debug, PartialEq, Eq, Structural)]
pub enum PeerState {
    Connected,
    Disconnected,
    Failed,
    Closed,
    Other,
}

/// What a change of the connection's state asks for.
#[derive(Clone, Copy, Debug, PartialEq, Eq, Structural)]
pub enum StateAction {
    /// Start to send sound and pictures.
    Start,
    /// Go on.
    Continue,
    /// The connection was closed: the call ends.
    Closed,
}

/// What the state of the call is shown as.
#[derive(Clone, Copy, Debug, PartialEq, Eq, Structural)]
pub enum Status {
    Connected,
    Interrupted,
}

impl Status {
    /// The status in words.
    pub fn words(self) -> (r: &'static str)
        ensures
            r@ == (match self {
                Status::Connected => "connected"@,
                Status::Interrupted => "Media interrupted — waiting for link"@,
            }),
    {
        match self {
            Status::Connected => "connected",
            Status::Interrupted => "Media interrupted — waiting for link",
        }
    }
}

/// Whether a call goes on.
#[derive(Clone, Copy, Debug, PartialEq, Eq, Structural)]
pub enum Verdict {
    Continue,
    /// The call has lasted as long as it was meant to.
    Done,
    Fail(SessionError),
}

/// What comes of a regular look at a call.
#[derive(Clone, Copy, Debug, PartialEq, Eq, Structural)]
pub struct Tick {
    pub status: Option<Status>,
    pub verdict: Verdict,
}

/// What comes of a look at the room.
#[derive(Clone, Copy, Debug, PartialEq, Eq, Structural)]
pub enum PollAction {
    /// The other participant has left.
    PeerLeft,
    /// Offer a connection to the other participant.
    Offer,
    Nothing,
}

/// What a session description is.
#[derive(Clone, Copy, Debug, PartialEq, Eq, Structural)]
pub enum SdpKind {
    Unspecified,
    Offer,
    Pranswer,
    Answer,
    Rollback,
}

/// A session description that is taken over, and whether it is to be answered.
#[derive(Debug)]
pub struct Accepted {
    pub sdp: String,
    pub answer: bool,
}

/// What a call is limited by, in seconds, and where its sound comes from.
#[derive(Clone, Copy, Debug, PartialEq, Eq, Structural)]
pub struct Limits {
    pub duration: u64,
    pub connect_timeout: u64,
    pub source: Source,
}

/// How far a call has come. Times are in nanoseconds.
#[derive(Clone, Copy, Debug, PartialEq, Eq, Structural)]
pub struct Session {
    pub joined: u64,
    pub offered: bool,
    pub remote_set: bool,
    pub had_peer: bool,
    pub receiving: bool,
    pub receiving_video: bool,
    pub connected: Option<u64>,
    pub disconnected: Option<u64>,
    pub last_audio_count: u64,
    pub last_audio_at: u64,
}

/// The time that has passed, none where a clock ran backwards.
pub open spec fn elapsed(now: u64, since: u64) -> int {
    if now < since {
        0
    } else {
        now - since
    }
}

/// Seconds in nanoseconds.
pub open spec fn seconds(count: int) -> int {
    count * 1_000_000_000
}

fn passed(now: u64, since: u64) -> (r: u64)
    ensures
        r == elapsed(now, since),
{
    if now < since {
        0
    } else {
        now - since
    }
}

/// Whether so many seconds have passed.
fn reached(time: u64, count: u64) -> (r: bool)
    ensures
        r == (time >= seconds(count as int)),
{
    time as u128 >= count as u128 * 1_000_000_000
}

/// Whether more than so many seconds have passed.
fn exceeds(time: u64, count: u64) -> (r: bool)
    ensures
        r == (time > seconds(count as int)),
{
    time as u128 > count as u128 * 1_000_000_000
}

impl Session {
    /// Whether the flow of sound is watched: only while the connection stands.
    pub open spec fn watched(self) -> bool {
        self.connected is Some && self.disconnected is None
    }

    /// What is shown of the flow of sound.
    pub open spec fn status(self, now: u64, frames: u64) -> Option<Status> {
        if !self.watched() {
            None
        } else if frames != self.last_audio_count {
            Some(Status::Connected)
        } else if elapsed(now, self.last_audio_at) > 1_500_000_000 {
            Some(Status::Interrupted)
        } else {
            None
        }
    }

    /// The state once the flow of sound was looked at.
    pub open spec fn noted(self, now: u64, frames: u64) -> Session {
        if self.watched() && frames != self.last_audio_count {
            Session { last_audio_count: frames, last_audio_at: now, ..self }
        } else {
            self
        }
    }

    /// Whether the call goes on, from what is tested first to what is tested last.
    pub open spec fn verdict(
        self,
        now: u64,
        limits: Limits,
        frames: u64,
        captured: u64,
        device_errors: u64,
    ) -> Verdict {
        if limits.duration > 0 && self.connected is Some && elapsed(now, self.connected->Some_0)
            >= seconds(limits.duration as int) {
            if frames == 0 {
                Verdict::Fail(SessionError::NoAudio)
            } else {
                Verdict::Done
            }
        } else if self.connected is None && elapsed(now, self.joined) > seconds(
            limits.connect_timeout as int,
        ) {
            Verdict::Fail(SessionError::ConnectTimeout)
        } else if self.disconnected is Some && elapsed(now, self.disconnected->Some_0) > seconds(
            12,
        ) {
            Verdict::Fail(SessionError::PeerGone)
        } else if limits.source == Source::Mic && elapsed(now, self.joined) > seconds(3) && captured
            == 0 {
            Verdict::Fail(SessionError::SilentMicrophone)
        } else if device_errors > 0 {
            Verdict::Fail(SessionError::DeviceStopped)
        } else {
            Verdict::Continue
        }
    }

    /// The state after the connection has changed its own, and what that asks for.
    pub open spec fn changed(self, state: PeerState, now: u64) -> (Session, Result<
        StateAction,
        SessionError,
    >) {
        match state {
            PeerState::Connected => (
                Session {
                    connected: if self.connected is None {
                        Some(now)
                    } else {
                        self.connected
                    },
                    disconnected: None,
                    ..self
                },
                Ok(
                    if self.connected is None {
                        StateAction::Start
                    } else {
                        StateAction::Continue
                    },
                ),
            ),
            PeerState::Disconnected => (
                Session { disconnected: Some(now), ..self },
                Ok(StateAction::Continue),
            ),
            PeerState::Failed => (self, Err(SessionError::MediaFailed)),
            PeerState::Closed => (self, Ok(StateAction::Closed)),
            PeerState::Other => (self, Ok(StateAction::Continue)),
        }
    }

    /// The state after the other participant has sent a track, and whether it is received.
    pub open spec fn with_track(self, video: bool) -> (Session, Result<(), SessionError>) {
        if video {
            (
                Session { receiving_video: true, ..self },
                if self.receiving_video {
                    Err(SessionError::SecondVideoTrack)
                } else {
                    Ok(())
                },
            )
        } else {
            (
                Session { receiving: true, ..self },
                if self.receiving {
                    Err(SessionError::SecondAudioTrack)
                } else {
                    Ok(())
                },
            )
        }
    }

    /// The state after the room was looked at, and what that asks for.
    pub open spec fn looked(self, id: Seq<char>, peer: Option<Seq<char>>) -> (Session, PollAction) {
        (
            Session { had_peer: self.had_peer || peer is Some, ..self },
            match peer {
                None => if self.had_peer {
                    PollAction::PeerLeft
                } else {
                    PollAction::Nothing
                },
                Some(other) => if self.should_offer(id, other) {
                    PollAction::Offer
                } else {
                    PollAction::Nothing
                },
            },
        )
    }

    /// A call that has joined its room.
    pub fn new(now: u64) -> (r: Self)
        ensures
            r == (Session {
                joined: now,
                offered: false,
                remote_set: false,
                had_peer: false,
                receiving: false,
                receiving_video: false,
                connected: None,
                disconnected: None,
                last_audio_count: 0,
                last_audio_at: now,
            }),
    {
        Session {
            joined: now,
            offered: false,
            remote_set: false,
            had_peer: false,
            receiving: false,
            receiving_video: false,
            connected: None,
            disconnected: None,
            last_audio_count: 0,
            last_audio_at: now,
        }
    }

    /// The connection has changed its state.
    pub fn peer_state(&mut self, state: PeerState, now: u64) -> (r: Result<
        StateAction,
        SessionError,
    >)
        ensures
            (*final(self), r) == old(self).changed(state, now),
            match state {
                PeerState::Connected => {
                    &&& r == Ok::<_, SessionError>(
                        if old(self).connected is None {
                            StateAction::Start
                        } else {
                            StateAction::Continue
                        },
                    )
                    &&& *final(self) == (Session {
                        connected: if old(self).connected is None {
                            Some(now)
                        } else {
                            old(self).connected
                        },
                        disconnected: None,
                        ..*old(self)
                    })
                },
                PeerState::Disconnected => {
                    &&& r == Ok::<_, SessionError>(StateAction::Continue)
                    &&& *final(self) == (Session { disconnected: Some(now), ..*old(self) })
                },
                PeerState::Failed => {
                    &&& r == Err::<StateAction, _>(SessionError::MediaFailed)
                    &&& *final(self) == *old(self)
                },
                PeerState::Closed => {
                    &&& r == Ok::<_, SessionError>(StateAction::Closed)
                    &&& *final(self) == *old(self)
                },
                PeerState::Other => {
                    &&& r == Ok::<_, SessionError>(StateAction::Continue)
                    &&& *final(self) == *old(self)
                },
            },
    {
        match state {
            PeerState::Connected => {
                let action = if self.connected.is_none() {
                    self.connected = Some(now);
                    StateAction::Start
                } else {
                    StateAction::Continue
                };
                self.disconnected = None;
                Ok(action)
            },
            PeerState::Disconnected => {
                self.disconnected = Some(now);
                Ok(StateAction::Continue)
            },
            PeerState::Failed => Err(SessionError::MediaFailed),
            PeerState::Closed => Ok(StateAction::Closed),
            PeerState::Other => Ok(StateAction::Continue),
        }
    }

    /// The other participant sends a track: at most one of each kind is received.
    pub fn track(&mut self, video: bool) -> (r: Result<(), SessionError>)
        ensures
            (*final(self), r) == old(self).with_track(video),
            video ==> r == (if old(self).receiving_video {
                Err(SessionError::SecondVideoTrack)
            } else {
                Ok(())
            }) && *final(self) == (Session { receiving_video: true, ..*old(self) }),
            !video ==> r == (if old(self).receiving {
                Err(SessionError::SecondAudioTrack)
            } else {
                Ok(())
            }) && *final(self) == (Session { receiving: true, ..*old(self) }),
    {
        if video {
            if self.receiving_video {
                return Err(SessionError::SecondVideoTrack);
            }
            self.receiving_video = true;
        } else {
            if self.receiving {
                return Err(SessionError::SecondAudioTrack);
            }
            self.receiving = true;
        }
        Ok(())
    }

    /// A regular look at the call.
    pub fn tick(&mut self, now: u64, limits: Limits, metrics: &Metrics) -> (r: Tick)
        ensures
            *final(self) == old(self).noted(now, metrics.rx_frames),
            r.status == old(self).status(now, metrics.rx_frames),
            r.verdict == old(self).verdict(
                now,
                limits,
                metrics.rx_frames,
                metrics.captured_samples,
                metrics.device_errors,
            ),
    {
        let frames: u64 = metrics.rx_frames;
        let mut status = None;
        if self.connected.is_some() && self.disconnected.is_none() {
            if frames != self.last_audio_count {
                self.last_audio_count = frames;
                self.last_audio_at = now;
                status = Some(Status::Connected);
            } else if passed(now, self.last_audio_at) > 1_500_000_000 {
                status = Some(Status::Interrupted);
            }
        }
        if let Some(since) = self.connected {
            if limits.duration > 0 && reached(passed(now, since), limits.duration) {
                let verdict = if frames == 0 {
                    Verdict::Fail(SessionError::NoAudio)
                } else {
                    Verdict::Done
                };
                return Tick { status, verdict };
            }
        }
        let age: u64 = passed(now, self.joined);
        if self.connected.is_none() && exceeds(age, limits.connect_timeout) {
            return Tick { status, verdict: Verdict::Fail(SessionError::ConnectTimeout) };
        }
        if let Some(since) = self.disconnected {
            if exceeds(passed(now, since), 12) {
                return Tick { status, verdict: Verdict::Fail(SessionError::PeerGone) };
            }
        }
        if limits.source == Source::Mic && exceeds(age, 3) && metrics.captured_samples == 0 {
            return Tick { status, verdict: Verdict::Fail(SessionError::SilentMicrophone) };
        }
        if metrics.device_errors > 0 {
            return Tick { status, verdict: Verdict::Fail(SessionError::DeviceStopped) };
        }
        Tick { status, verdict: Verdict::Continue }
    }

    /// Whether a participant offers a connection to another: the one whose name comes first does,
    /// once.
    pub open spec fn should_offer(self, id: Seq<char>, other: Seq<char>) -> bool {
        !self.offered && !self.remote_set && text::before(
            vstd::utf8::encode_utf8(id),
            vstd::utf8::encode_utf8(other),
        )
    }

    /// The room was looked at: who else is in it.
    pub fn polled(&mut self, id: &str, peer: &Option<String>) -> (r: PollAction)
        ensures
            (*final(self), r) == old(self).looked(
                id@,
                match *peer {
                    Some(other) => Some(other@),
                    None => None,
                },
            ),
            *final(self) == (Session {
                had_peer: old(self).had_peer || peer is Some,
                ..*old(self)
            }),
            r == (match *peer {
                None => if old(self).had_peer {
                    PollAction::PeerLeft
                } else {
                    PollAction::Nothing
                },
                Some(other) => if old(self).should_offer(id@, other@) {
                    PollAction::Offer
                } else {
                    PollAction::Nothing
                },
            }),
    {
        match peer {
            None => if self.had_peer {
                PollAction::PeerLeft
            } else {
                PollAction::Nothing
            },
            Some(other) => {
                self.had_peer = true;
                if !self.offered && !self.remote_set && text::less(id, other.as_str()) {
                    PollAction::Offer
                } else {
                    PollAction::Nothing
                }
            },
        }
    }

    /// A connection was offered.
    pub fn offer_sent(&mut self)
        ensures
            *final(self) == (Session { offered: true, ..*old(self) }),
    {
        self.offered = true;
    }

    /// Whether a session description of the given kind is expected: an answer after an offer, or
    /// an offer.
    pub open spec fn expects(self, kind: SdpKind) -> bool {
        match kind {
            SdpKind::Offer => !self.offered,
            SdpKind::Answer => self.offered,
            _ => false,
        }
    }

    /// What is wrong with a session description from the other participant, from what is tested
    /// first to what is tested last.
    pub open spec fn objection(
        self,
        kind: SdpKind,
        sdp: Seq<char>,
        relay: Option<u16>,
    ) -> Option<SessionError> {
        match crate::call::verdict(sdp) {
            Some(error) => Some(SessionError::Sdp(error)),
            None => if relay == Some(0u16) {
                Some(SessionError::Sdp(SdpError::RelayPort))
            } else if self.remote_set {
                Some(SessionError::RepeatedDescription)
            } else if !self.expects(kind) {
                Some(SessionError::UnexpectedDescription)
            } else {
                None
            },
        }
    }

    /// A session description came from the other participant. Where a relay stands between the
    /// two, its port takes the place of all others.
    pub fn description(&mut self, kind: SdpKind, sdp: &str, relay: Option<u16>) -> (r: Result<
        Accepted,
        SessionError,
    >)
        ensures
            match old(self).objection(kind, sdp@, relay) {
                Some(error) => {
                    &&& r == Err::<Accepted, _>(error)
                    &&& *final(self) == *old(self)
                },
                None => {
                    &&& *final(self) == (Session { remote_set: true, ..*old(self) })
                    &&& r matches Ok(accepted)
                    &&& accepted.answer == (kind == SdpKind::Offer)
                    &&& accepted.sdp@ == (match relay {
                        Some(port) => crate::call::relayed(sdp@, port),
                        None => sdp@,
                    })
                },
            },
    {
        if let Err(error) = validate_sdp(sdp) {
            return Err(SessionError::Sdp(error));
        }
        let sdp = match relay {
            Some(port) => match relay_sdp(sdp, port) {
                Ok(sdp) => sdp,
                Err(error) => {
                    return Err(SessionError::Sdp(error));
                },
            },
            None => String::from_str(sdp),
        };
        if self.remote_set {
            return Err(SessionError::RepeatedDescription);
        }
        let expected = match kind {
            SdpKind::Offer => !self.offered,
            SdpKind::Answer => self.offered,
            _ => false,
        };
        if !expected {
            return Err(SessionError::UnexpectedDescription);
        }
        self.remote_set = true;
        Ok(Accepted { sdp, answer: kind == SdpKind::Offer })
    }
}

/// Of two participants with different names, exactly one offers a connection.
pub proof fn law_one_side_offers(a: Session, b: Session, a_id: Seq<char>, b_id: Seq<char>)
    requires
        !a.offered && !a.remote_set,
        !b.offered && !b.remote_set,
        a_id != b_id,
    ensures
        a.should_offer(a_id, b_id) != b.should_offer(b_id, a_id),
{
    let x = vstd::utf8::encode_utf8(a_id);
    let y = vstd::utf8::encode_utf8(b_id);
    if x == y {
        vstd::utf8::encode_utf8_decode_utf8(a_id);
        vstd::utf8::encode_utf8_decode_utf8(b_id);
    }
    text::lemma_before_total(x, y);
}

/// The participant that offers expects the answer, and the other expects the offer; once each has
/// taken one over, neither takes another, nor offers again.
pub proof fn law_handshake(
    a: Session,
    b: Session,
    a_id: Seq<char>,
    b_id: Seq<char>,
    sdp: Seq<char>,
    kind: SdpKind,
    relay: Option<u16>,
)
    requires
        !a.offered && !a.remote_set,
        !b.offered && !b.remote_set,
        a.should_offer(a_id, b_id),
        crate::call::verdict(sdp) is None,
        relay != Some(0u16),
    ensures
        ({
            let offering = Session { offered: true, ..a };
            let answering = Session { remote_set: true, ..b };
            let settled = Session { remote_set: true, ..offering };
            &&& b.objection(SdpKind::Offer, sdp, relay) is None
            &&& b.objection(SdpKind::Answer, sdp, relay) is Some
            &&& offering.objection(SdpKind::Answer, sdp, relay) is None
            &&& offering.objection(SdpKind::Offer, sdp, relay) is Some
            &&& answering.objection(kind, sdp, relay) is Some
            &&& settled.objection(kind, sdp, relay) is Some
            &&& !offering.should_offer(a_id, b_id)
            &&& !answering.should_offer(b_id, a_id)
        }),
{
}

/// A connection that comes back within twelve seconds does not end the call.
pub proof fn law_short_interruption_is_survived(
    session: Session,
    since: u64,
    now: u64,
    limits: Limits,
    metrics: Metrics,
)
    requires
        session.connected is Some,
        session.disconnected == Some(since),
        elapsed(now, since) <= seconds(12),
        limits.duration == 0,
        metrics.captured_samples > 0 || limits.source != Source::Mic,
        metrics.device_errors == 0,
    ensures
        session.verdict(
            now,
            limits,
            metrics.rx_frames,
            metrics.captured_samples,
            metrics.device_errors,
        ) == Verdict::Continue,
{
}

/// Sound that does not come is shown as an interruption after one and a half seconds, and sound
/// that comes again is shown as a connection.
pub proof fn law_interruption_is_shown(session: Session, now: u64, frames: u64)
    requires
        session.watched(),
    ensures
        frames == session.last_audio_count && elapsed(now, session.last_audio_at) > 1_500_000_000
            ==> session.status(now, frames) == Some(Status::Interrupted) && session.noted(
            now,
            frames,
        ) == session,
        frames != session.last_audio_count ==> session.status(now, frames) == Some(
            Status::Connected,
        ) && session.noted(now, frames).last_audio_at == now,
{
}

/// A connection that stays away for more than twelve seconds ends the call.
pub proof fn law_long_interruption_ends_call(
    session: Session,
    since: u64,
    now: u64,
    limits: Limits,
    metrics: Metrics,
)
    requires
        session.connected is Some,
        session.disconnected == Some(since),
        elapsed(now, since) > seconds(12),
    ensures
        session.verdict(
            now,
            limits,
            metrics.rx_frames,
            metrics.captured_samples,
            metrics.device_errors,
        ) != Verdict::Continue,
{
}

/// Whether something was more than so many seconds ago. Times are in nanoseconds.
pub open spec fn longer_ago(now: u64, since: u64, seconds: int) -> bool {
    now - since > seconds * 1_000_000_000 && now >= since
}

/// What ends a call, and in which order it is looked for. A call with a duration ends when it has been
/// connected for so long, well if it has heard anything. Else it fails if it was never connected in
/// time; if the connection has been away for more than twelve seconds; if a microphone has given
/// nothing for more than three; if a device has failed; and otherwise it goes on.
pub proof fn law_what_ends_a_call(
    session: Session,
    now: u64,
    limits: Limits,
    frames: u64,
    captured: u64,
    device_errors: u64,
)
    requires
        now >= session.joined,
        session.connected matches Some(since) ==> now >= since,
        session.disconnected matches Some(since) ==> now >= since,
    ensures
        ({
            let verdict = session.verdict(now, limits, frames, captured, device_errors);
            let over = limits.duration > 0 && (session.connected matches Some(since) && now - since
                >= limits.duration * 1_000_000_000);
            let late = session.connected is None && longer_ago(
                now,
                session.joined,
                limits.connect_timeout as int,
            );
            let away = session.disconnected matches Some(since) && longer_ago(now, since, 12);
            let silent = limits.source == Source::Mic && captured == 0 && longer_ago(
                now,
                session.joined,
                3,
            );
            let broken = device_errors > 0;
            &&& verdict == Verdict::Done <==> over && frames > 0
            &&& verdict == Verdict::Fail(SessionError::NoAudio) <==> over && frames == 0
            &&& verdict == Verdict::Fail(SessionError::ConnectTimeout) <==> !over && late
            &&& verdict == Verdict::Fail(SessionError::PeerGone) <==> !over && !late && away
            &&& verdict == Verdict::Fail(SessionError::SilentMicrophone) <==> !over && !late
                && !away && silent
            &&& verdict == Verdict::Fail(SessionError::DeviceStopped) <==> !over && !late && !away
                && !silent && broken
            &&& verdict == Verdict::Continue <==> !over && !late && !away && !silent && !broken
        }),
{
}

/// Which descriptions are taken over: those that keep the call on this host, with a port for the relay
/// where there is one, and only as the first, an offer by who has not offered, an answer by who has.
pub proof fn law_which_descriptions_are_taken(
    session: Session,
    kind: SdpKind,
    sdp: Seq<char>,
    relay: Option<u16>,
)
    ensures
        session.objection(kind, sdp, relay) is None <==> {
            &&& crate::call::verdict(sdp) is None
            &&& relay matches Some(port) ==> port > 0
            &&& !session.remote_set
            &&& (kind == SdpKind::Offer && !session.offered) || (kind == SdpKind::Answer
                && session.offered)
        },
        crate::call::verdict(sdp) matches Some(error) ==> session.objection(kind, sdp, relay)
            == Some(SessionError::Sdp(error)),
        crate::call::verdict(sdp) is None && relay != Some(0u16) && session.remote_set
            ==> session.objection(kind, sdp, relay) == Some(SessionError::RepeatedDescription),
{
}

/// Every word stands for one command, whatever space is around it, and every other line for help.
pub proof fn law_words_of_commands(line: Seq<char>)
    ensures
        ({
            let word = text::trimmed(line);
            let command = command_of(line);
            &&& command == Command::Mute <==> word == "mute"@
            &&& command == Command::Unmute <==> word == "unmute"@
            &&& command == Command::CameraOff <==> word == "camera-off"@
            &&& command == Command::CameraOn <==> word == "camera-on"@
            &&& command == Command::Quality(Quality::Tiny) <==> word == "quality-tiny"@
            &&& command == Command::Quality(Quality::Minimal) <==> word == "quality-minimal"@
            &&& command == Command::Quality(Quality::Low) <==> word == "quality-low"@
            &&& command == Command::Quality(Quality::Standard) <==> word == "quality-standard"@
            &&& command == Command::Quit <==> word == "quit"@ || word == "leave"@
            &&& command == Command::Stats <==> word == "stats"@
        }),
{
    reveal_strlit("mute");
    reveal_strlit("unmute");
    reveal_strlit("camera-off");
    reveal_strlit("camera-on");
    reveal_strlit("quality-tiny");
    reveal_strlit("quality-minimal");
    reveal_strlit("quality-low");
    reveal_strlit("quality-standard");
    reveal_strlit("quit");
    reveal_strlit("leave");
    reveal_strlit("stats");
    let a = "quality-tiny"@;
    let b = "quality-minimal"@;
    let c = "quality-low"@;
    let d = "quality-standard"@;
    let e = "camera-off"@;
    let f = "camera-on"@;
    let g = "leave"@;
    let h = "stats"@;
    assert(a.len() == 12 && b.len() == 15 && c.len() == 11 && d.len() == 16);
    assert(e.len() == 10 && f.len() == 9);
    assert(g[0] == 'l' && h[0] == 's');
    assert("mute"@[0] == 'm' && "quit"@[0] == 'q');
}

impl Session {
    /// The state after a list of changes of the connection, each with its time.
    pub open spec fn changed_all(self, changes: Seq<(PeerState, u64)>) -> Session
        decreases changes.len(),
    {
        if changes.len() == 0 {
            self
        } else {
            self.changed_all(changes.drop_last()).changed(changes.last().0, changes.last().1).0
        }
    }

    /// What one of a list of changes of the connection asks for.
    pub open spec fn asked_by(self, changes: Seq<(PeerState, u64)>, i: int) -> Result<
        StateAction,
        SessionError,
    > {
        self.changed_all(changes.take(i)).changed(changes[i].0, changes[i].1).1
    }

    /// The state after a list of tracks.
    pub open spec fn with_tracks(self, videos: Seq<bool>) -> Session
        decreases videos.len(),
    {
        if videos.len() == 0 {
            self
        } else {
            self.with_tracks(videos.drop_last()).with_track(videos.last()).0
        }
    }

    /// The state after a list of looks at the room.
    pub open spec fn looked_all(self, id: Seq<char>, peers: Seq<Option<Seq<char>>>) -> Session
        decreases peers.len(),
    {
        if peers.len() == 0 {
            self
        } else {
            self.looked_all(id, peers.drop_last()).looked(id, peers.last()).0
        }
    }
}

/// Whether a connection stood at some time before.
pub open spec fn was_connected(changes: Seq<(PeerState, u64)>, count: int) -> bool {
    exists|k: int| 0 <= k < count && (#[trigger] changes[k]).0 == PeerState::Connected
}

/// When the connection went away last, if it has not come back since.
pub open spec fn away_since(changes: Seq<(PeerState, u64)>) -> Option<u64>
    decreases changes.len(),
{
    if changes.len() == 0 {
        None
    } else if changes.last().0 == PeerState::Disconnected {
        Some(changes.last().1)
    } else if changes.last().0 == PeerState::Connected {
        None
    } else {
        away_since(changes.drop_last())
    }
}

proof fn lemma_changes(changes: Seq<(PeerState, u64)>, fresh: Session)
    requires
        fresh.connected is None,
        fresh.disconnected is None,
    ensures
        fresh.changed_all(changes).connected is Some <==> was_connected(
            changes,
            changes.len() as int,
        ),
        fresh.changed_all(changes).disconnected == away_since(changes),
        fresh.changed_all(changes) == (Session {
            connected: fresh.changed_all(changes).connected,
            disconnected: fresh.changed_all(changes).disconnected,
            ..fresh
        }),
    decreases changes.len(),
{
    if changes.len() > 0 {
        let front = changes.drop_last();
        let last = changes.len() - 1;
        lemma_changes(front, fresh);
        assert forall|k: int| 0 <= k < front.len() implies #[trigger] front[k] == changes[k] by {}
        if was_connected(front, front.len() as int) {
            let k = choose|k: int|
                0 <= k < front.len() && (#[trigger] front[k]).0 == PeerState::Connected;
            assert(changes[k].0 == PeerState::Connected);
        }
        if changes[last].0 == PeerState::Connected {
            assert(was_connected(changes, changes.len() as int));
        }
        if was_connected(changes, changes.len() as int) {
            let k = choose|k: int|
                0 <= k < changes.len() && (#[trigger] changes[k]).0 == PeerState::Connected;
            if k < last {
                assert(front[k].0 == PeerState::Connected);
            }
        }
    }
}

/// However a connection changes, sound and pictures are started once: when it stands for the first time.
/// The call ends when it is closed, fails when it has failed, and otherwise goes on.
pub proof fn law_media_are_started_once(
    fresh: Session,
    changes: Seq<(PeerState, u64)>,
    i: int,
)
    requires
        fresh.connected is None,
        fresh.disconnected is None,
        0 <= i < changes.len(),
    ensures
        ({
            let asked = fresh.asked_by(changes, i);
            let state = changes[i].0;
            &&& asked == Ok::<_, SessionError>(StateAction::Start) <==> state
                == PeerState::Connected && !was_connected(changes, i)
            &&& asked == Ok::<_, SessionError>(StateAction::Closed) <==> state == PeerState::Closed
            &&& asked is Err <==> state == PeerState::Failed
            &&& asked is Err ==> asked == Err::<StateAction, _>(SessionError::MediaFailed)
        }),
{
    let front = changes.take(i);
    lemma_changes(front, fresh);
    assert forall|k: int| 0 <= k < i implies #[trigger] front[k] == changes[k] by {}
    if was_connected(front, i) {
        let k = choose|k: int| 0 <= k < i && (#[trigger] front[k]).0 == PeerState::Connected;
        assert(changes[k].0 == PeerState::Connected);
    }
    if was_connected(changes, i) {
        let k = choose|k: int| 0 <= k < i && (#[trigger] changes[k]).0 == PeerState::Connected;
        assert(front[k].0 == PeerState::Connected);
    }
}

/// Since when a connection is away is the time at which it last went away, unless it has come back.
pub proof fn law_absence_is_timed(fresh: Session, changes: Seq<(PeerState, u64)>)
    requires
        fresh.connected is None,
        fresh.disconnected is None,
    ensures
        fresh.changed_all(changes).disconnected == away_since(changes),
        fresh.changed_all(changes).connected is Some <==> was_connected(
            changes,
            changes.len() as int,
        ),
{
    lemma_changes(changes, fresh);
}

/// Of each kind of track the first is received and no other, however many come.
pub proof fn law_one_track_of_each_kind(fresh: Session, videos: Seq<bool>, video: bool)
    requires
        !fresh.receiving,
        !fresh.receiving_video,
    ensures
        fresh.with_tracks(videos).with_track(video).1 is Ok <==> !videos.contains(video),
{
    lemma_tracks(fresh, videos);
}

proof fn lemma_tracks(fresh: Session, videos: Seq<bool>)
    requires
        !fresh.receiving,
        !fresh.receiving_video,
    ensures
        fresh.with_tracks(videos).receiving_video <==> videos.contains(true),
        fresh.with_tracks(videos).receiving <==> videos.contains(false),
    decreases videos.len(),
{
    if videos.len() > 0 {
        let front = videos.drop_last();
        lemma_tracks(fresh, front);
        assert(videos =~= front.push(videos.last()));
        assert forall|kind: bool| videos.contains(kind) <==> front.contains(kind) || videos.last()
            == kind by {
            if front.contains(kind) {
                let k = choose|k: int| 0 <= k < front.len() && front[k] == kind;
                assert(videos[k] == kind);
            }
            if videos.last() == kind {
                assert(videos[videos.len() - 1] == kind);
            }
            if videos.contains(kind) {
                let k = choose|k: int| 0 <= k < videos.len() && videos[k] == kind;
                if k < front.len() {
                    assert(front[k] == kind);
                }
            }
        }
    }
}

/// The other participant has left exactly if nobody else is in the room and somebody was before.
pub proof fn law_when_the_peer_has_left(
    fresh: Session,
    id: Seq<char>,
    peers: Seq<Option<Seq<char>>>,
    now: Option<Seq<char>>,
)
    requires
        !fresh.had_peer,
    ensures
        fresh.looked_all(id, peers).looked(id, now).1 == PollAction::PeerLeft <==> now is None
            && exists|k: int| 0 <= k < peers.len() && (#[trigger] peers[k]) is Some,
{
    lemma_looks(fresh, id, peers);
}

proof fn lemma_looks(fresh: Session, id: Seq<char>, peers: Seq<Option<Seq<char>>>)
    requires
        !fresh.had_peer,
    ensures
        fresh.looked_all(id, peers).had_peer <==> exists|k: int|
            0 <= k < peers.len() && (#[trigger] peers[k]) is Some,
    decreases peers.len(),
{
    if peers.len() > 0 {
        let front = peers.drop_last();
        let last = peers.len() - 1;
        lemma_looks(fresh, id, front);
        assert forall|k: int| 0 <= k < front.len() implies #[trigger] front[k] == peers[k] by {}
        if fresh.looked_all(id, front).had_peer {
            let k = choose|k: int| 0 <= k < front.len() && (#[trigger] front[k]) is Some;
            assert(peers[k] is Some);
        }
        if peers[last] is Some {
            assert(fresh.looked_all(id, peers).had_peer);
        }
        if exists|k: int| 0 <= k < peers.len() && (#[trigger] peers[k]) is Some {
            let k = choose|k: int| 0 <= k < peers.len() && (#[trigger] peers[k]) is Some;
            if k < last {
                assert(front[k] is Some);
            }
        }
    }
}

/// Since when a connection stands, for the duration of the call, is the time at which it first did,
/// whatever happens to it after that.
pub proof fn law_duration_counts_from_first_connection(
    fresh: Session,
    changes: Seq<(PeerState, u64)>,
    first: int,
)
    requires
        fresh.connected is None,
        0 <= first < changes.len(),
        changes[first].0 == PeerState::Connected,
        forall|k: int| 0 <= k < first ==> (#[trigger] changes[k]).0 != PeerState::Connected,
    ensures
        fresh.changed_all(changes).connected == Some(changes[first].1),
    decreases changes.len(),
{
    let front = changes.drop_last();
    assert forall|k: int| 0 <= k < front.len() implies #[trigger] front[k] == changes[k] by {}
    if first < front.len() {
        law_duration_counts_from_first_connection(fresh, front, first);
    } else {
        lemma_never_connected(fresh, front);
    }
}

proof fn lemma_never_connected(fresh: Session, changes: Seq<(PeerState, u64)>)
    requires
        fresh.connected is None,
        forall|k: int| 0 <= k < changes.len() ==> (#[trigger] changes[k]).0 != PeerState::Connected,
    ensures
        fresh.changed_all(changes).connected is None,
    decreases changes.len(),
{
    if changes.len() > 0 {
        let front = changes.drop_last();
        assert forall|k: int| 0 <= k < front.len() implies #[trigger] front[k] == changes[k] by {}
        lemma_never_connected(fresh, front);
        assert(changes[changes.len() - 1].0 != PeerState::Connected);
    }
}

/// Of two participants the one offers whose name comes first by its bytes: the shorter one where one is
/// the beginning of the other, else the one with the smaller byte where they first differ. It offers
/// once, and not when it has taken a description over.
pub proof fn law_first_name_offers(
    session: Session,
    id: Seq<char>,
    other: Seq<char>,
    i: int,
)
    requires
        ({
            let a = vstd::utf8::encode_utf8(id);
            let b = vstd::utf8::encode_utf8(other);
            &&& 0 <= i <= a.len() && i <= b.len()
            &&& a.take(i) == b.take(i)
            &&& i == a.len() || i == b.len() || a[i] != b[i]
        }),
    ensures
        ({
            let a = vstd::utf8::encode_utf8(id);
            let b = vstd::utf8::encode_utf8(other);
            session.should_offer(id, other) <==> !session.offered && !session.remote_set && i
                < b.len() && (i == a.len() || a[i] < b[i])
        }),
{
    text::law_order_of_bytes(
        vstd::utf8::encode_utf8(id),
        vstd::utf8::encode_utf8(other),
        i,
    );
}

} // verus!
