//! How a participant takes part in a call, and which session descriptions are accepted: those with
//! loopback candidates alone, whose place a relay can take.
use crate::address;
use crate::address::{Endpoint, Ip};
use crate::audio::{Profile, Sink, Source, RATE};
use crate::metrics::Metrics;
use crate::session::Limits;
use crate::shaper::{AUDIO_PAYLOAD, VIDEO_PAYLOAD};
use crate::text;
use crate::video;
use crate::video::VideoSource;
use vstd::prelude::*;

verus! {

/// Why a session description is refused.
#[derive(Clone, Copy, Debug, PartialEq, Eq, Structural)]
pub enum SdpError {
    /// The relay port is zero.
    RelayPort,
    /// A candidate has no address field.
    Malformed,
    /// A candidate names a host instead of an address.
    Name,
    /// A candidate is not a loopback host candidate over UDP.
    Rejected,
    /// There is no candidate at all.
    NoCandidates,
}

impl SdpError {
    /// What to tell the user, with the cause where there is one.
    pub open spec fn words(self) -> Seq<char> {
        match self {
            SdpError::RelayPort => "relay port must be nonzero"@,
            SdpError::Malformed => "malformed ICE candidate"@,
            SdpError::Name => "P0 rejects DNS ICE candidates: invalid IP address syntax"@,
            SdpError::Rejected => "P0 rejects non-loopback/non-host/non-UDP ICE candidates"@,
            SdpError::NoCandidates => "no loopback ICE candidates: this WebRTC stack must support same-Mac connections"@,
        }
    }

    /// What to tell the user, with the cause where there is one.
    pub fn message(self) -> (r: &'static str)
        ensures
            r@ == self.words(),
    {
        match self {
            SdpError::RelayPort => "relay port must be nonzero",
            SdpError::Malformed => "malformed ICE candidate",
            SdpError::Name => "P0 rejects DNS ICE candidates: invalid IP address syntax",
            SdpError::Rejected => "P0 rejects non-loopback/non-host/non-UDP ICE candidates",
            SdpError::NoCandidates =>
                "no loopback ICE candidates: this WebRTC stack must support same-Mac connections",
        }
    }
}

/// A line that announces a candidate.
pub open spec fn is_candidate(line: Seq<char>) -> bool {
    "a=candidate:"@.is_prefix_of(line)
}

/// The transport name `udp`, in either case.
pub open spec fn is_udp(field: Seq<char>) -> bool {
    &&& field.len() == 3
    &&& field[0] == 'u' || field[0] == 'U'
    &&& field[1] == 'd' || field[1] == 'D'
    &&& field[2] == 'p' || field[2] == 'P'
}

/// What is wrong with the fields of a candidate.
pub open spec fn fault(fields: Seq<Seq<char>>) -> Option<SdpError> {
    if fields.len() <= 4 {
        Some(SdpError::Malformed)
    } else {
        match address::parsed(fields[4]) {
            None => Some(SdpError::Name),
            Some(ip) => if ip.local() && is_udp(fields[2]) && fields.len() > 7 && fields[7]
                == "host"@ {
                None
            } else {
                Some(SdpError::Rejected)
            },
        }
    }
}

/// The fault of the first line that has one.
pub open spec fn first_fault(lines: Seq<Seq<char>>) -> Option<SdpError>
    decreases lines.len(),
{
    if lines.len() == 0 {
        None
    } else if is_candidate(lines[0]) && fault(text::fields(lines[0])) is Some {
        fault(text::fields(lines[0]))
    } else {
        first_fault(lines.drop_first())
    }
}

/// Whether any line announces a candidate.
pub open spec fn offers(lines: Seq<Seq<char>>) -> bool {
    exists|i: int| 0 <= i < lines.len() && is_candidate(#[trigger] lines[i])
}

/// The verdict on a session description: every candidate must be a loopback host candidate over
/// UDP, and there must be one.
pub open spec fn verdict(sdp: Seq<char>) -> Option<SdpError> {
    match first_fault(text::lines(sdp)) {
        Some(error) => Some(error),
        None => if offers(text::lines(sdp)) {
            None
        } else {
            Some(SdpError::NoCandidates)
        },
    }
}

/// The fields of a candidate that points at the relay.
pub open spec fn relayed_fields(fields: Seq<Seq<char>>, port: u16) -> Seq<Seq<char>> {
    fields.update(4, "127.0.0.1"@).update(5, text::decimal(port as nat))
}

/// A line with the address and the port of a candidate replaced.
pub open spec fn relayed_line(line: Seq<char>, port: u16) -> Seq<char> {
    if is_candidate(line) {
        text::joined(relayed_fields(text::fields(line), port), " "@)
    } else {
        line
    }
}

/// All lines, with every candidate pointing at the relay.
pub open spec fn relayed_lines(lines: Seq<Seq<char>>, port: u16) -> Seq<Seq<char>> {
    lines.map_values(|line: Seq<char>| relayed_line(line, port))
}

/// The session description in which every candidate points at the relay.
pub open spec fn relayed(sdp: Seq<char>, port: u16) -> Seq<char> {
    text::joined(relayed_lines(text::lines(sdp), port), "\r\n"@) + "\r\n"@
}

fn check_candidate(line: &Vec<char>) -> (r: Result<(), SdpError>)
    ensures
        match r {
            Ok(_) => fault(text::fields(line@)) is None,
            Err(error) => fault(text::fields(line@)) == Some(error),
        },
{
    let fields = text::split_fields(line);
    let ghost all = text::views(fields@);
    assert(all.len() == fields@.len());
    assert(forall|i: int| 0 <= i < all.len() ==> all[i] == #[trigger] fields@[i]@);
    if fields.len() <= 4 {
        return Err(SdpError::Malformed);
    }
    let ip = match address::parse_ip(&fields[4]) {
        Some(ip) => ip,
        None => {
            return Err(SdpError::Name);
        },
    };
    let transport = &fields[2];
    assert(transport@ == all[2]);
    let udp = transport.len() == 3 && (transport[0] == 'u' || transport[0] == 'U') && (transport[1]
        == 'd' || transport[1] == 'D') && (transport[2] == 'p' || transport[2] == 'P');
    let host = text::characters("host");
    if ip.is_loopback() && udp && fields.len() > 7 && text::same(&fields[7], &host) {
        Ok(())
    } else {
        Err(SdpError::Rejected)
    }
}

proof fn lemma_offers_next(lines: Seq<Seq<char>>, i: int)
    requires
        0 <= i < lines.len(),
    ensures
        offers(lines.take(i + 1)) == (offers(lines.take(i)) || is_candidate(lines[i])),
{
    let now = lines.take(i + 1);
    let then = lines.take(i);
    if offers(then) {
        let j = choose|j: int| 0 <= j < then.len() && is_candidate(#[trigger] then[j]);
        assert(now[j] == then[j]);
    }
    if is_candidate(lines[i]) {
        assert(now[i] == lines[i]);
    }
    if offers(now) {
        let j = choose|j: int| 0 <= j < now.len() && is_candidate(#[trigger] now[j]);
        if j < i {
            assert(then[j] == now[j]);
        }
    }
}

/// Accepts a session description whose candidates are all loopback host candidates over UDP.
pub fn validate_sdp(sdp: &str) -> (r: Result<(), SdpError>)
    ensures
        match r {
            Ok(_) => verdict(sdp@) is None,
            Err(error) => verdict(sdp@) == Some(error),
        },
{
    let lines = text::split_lines(&text::characters(sdp));
    let prefix = text::characters("a=candidate:");
    let ghost all = text::views(lines@);
    let mut candidates: bool = false;
    let mut i: usize = 0;
    assert(all.skip(0) =~= all);
    while i < lines.len()
        invariant
            i <= lines.len(),
            all == text::views(lines@),
            all == text::lines(sdp@),
            prefix@ == "a=candidate:"@,
            first_fault(all) == first_fault(all.skip(i as int)),
            candidates == offers(all.take(i as int)),
        decreases lines.len() - i,
    {
        let ghost rest = all.skip(i as int);
        assert(rest[0] == lines@[i as int]@);
        assert(rest.drop_first() =~= all.skip(i + 1));
        proof {
            lemma_offers_next(all, i as int);
        }
        if text::starts_with(&lines[i], &prefix) {
            match check_candidate(&lines[i]) {
                Ok(_) => {},
                Err(error) => {
                    return Err(error);
                },
            }
            candidates = true;
        }
        i += 1;
    }
    assert(all.skip(i as int) =~= seq![]);
    assert(all.take(i as int) =~= all);
    if candidates {
        Ok(())
    } else {
        Err(SdpError::NoCandidates)
    }
}

/// A line without a fault of its own in a description without faults.
proof fn lemma_no_fault(lines: Seq<Seq<char>>, i: int)
    requires
        first_fault(lines) is None,
        0 <= i < lines.len(),
        is_candidate(lines[i]),
    ensures
        fault(text::fields(lines[i])) is None,
    decreases lines.len(),
{
    if i > 0 {
        assert(lines.drop_first()[i - 1] == lines[i]);
        lemma_no_fault(lines.drop_first(), i - 1);
    }
}

/// Replaces the address and the port of every candidate by those of a loopback relay.
pub fn relay_sdp(sdp: &str, port: u16) -> (r: Result<String, SdpError>)
    ensures
        match r {
            Ok(text) => port > 0 && verdict(sdp@) is None && text@ == relayed(sdp@, port),
            Err(error) => if port == 0 {
                error == SdpError::RelayPort
            } else {
                verdict(sdp@) == Some(error)
            },
        },
{
    if port == 0 {
        return Err(SdpError::RelayPort);
    }
    match validate_sdp(sdp) {
        Ok(_) => {},
        Err(error) => {
            return Err(error);
        },
    }
    let source = text::split_lines(&text::characters(sdp));
    let prefix = text::characters("a=candidate:");
    let space = text::characters(" ");
    let ending = text::characters("\r\n");
    let ghost all = text::views(source@);
    let mut lines: Vec<Vec<char>> = Vec::new();
    let mut i: usize = 0;
    assert(text::views(lines@) =~= relayed_lines(all.take(0), port));
    while i < source.len()
        invariant
            i <= source.len(),
            all == text::views(source@),
            all == text::lines(sdp@),
            first_fault(all) is None,
            prefix@ == "a=candidate:"@,
            space@ == " "@,
            text::views(lines@) == relayed_lines(all.take(i as int), port),
        decreases source.len() - i,
    {
        let ghost old_lines = lines@;
        assert(all[i as int] == source@[i as int]@);
        let line: Vec<char>;
        if text::starts_with(&source[i], &prefix) {
            proof {
                lemma_no_fault(all, i as int);
            }
            let mut fields = text::split_fields(&source[i]);
            let ghost old_fields = text::views(fields@);
            assert(old_fields.len() == fields@.len());
            fields.set(4, text::characters("127.0.0.1"));
            fields.set(5, text::number(port as u64));
            assert(text::views(fields@) =~= relayed_fields(old_fields, port));
            line = text::join(&fields, &space);
        } else {
            line = text::slice(&source[i], 0, source[i].len());
            assert(line@ =~= source@[i as int]@);
        }
        assert(line@ == relayed_line(all[i as int], port));
        lines.push(line);
        assert(text::views(lines@) =~= text::views(old_lines).push(line@));
        assert(relayed_lines(all.take(i + 1), port) =~= relayed_lines(all.take(i as int), port).push(
            relayed_line(all[i as int], port),
        ));
        i += 1;
    }
    assert(all.take(i as int) =~= all);
    let mut result = text::join(&lines, &ending);
    text::append(&mut result, &ending);
    Ok(text::string_from(&result))
}

/// One or three digits as an octet.
proof fn lemma_octets()
    ensures
        address::octet(seq!['0']) == Some(0nat),
        address::octet(seq!['1']) == Some(1nat),
        address::octet(seq!['1', '2', '7']) == Some(127nat),
{
    reveal_with_fuel(address::digits_value, 4);
    assert(seq!['0'].drop_last() =~= seq![]);
    assert(seq!['1'].drop_last() =~= seq![]);
    assert(seq!['1', '2', '7'].drop_last() =~= seq!['1', '2']);
    assert(seq!['1', '2'].drop_last() =~= seq!['1']);
    assert(address::digits_value(seq!['1', '2'], 10) == Some(12nat));
}

/// The pieces of the relay's address.
proof fn lemma_relay_pieces(all: Seq<char>)
    requires
        all == seq!['1', '2', '7', '.', '0', '.', '0', '.', '1'],
    ensures
        text::pieces(all, '.') == seq![seq!['1', '2', '7'], seq!['0'], seq!['0'], seq!['1']],
{
    let dots = text::within_piece('.');
    let b = all.skip(4);
    let c = b.skip(2);
    let d = c.skip(2);
    assert(b =~= seq!['0', '.', '0', '.', '1']);
    assert(c =~= seq!['0', '.', '1']);
    assert(d =~= seq!['1']);
    text::lemma_run_is(all, dots, 3);
    text::lemma_run_is(b, dots, 1);
    text::lemma_run_is(c, dots, 1);
    text::lemma_run_is(d, dots, 1);
    assert(all.take(3) =~= seq!['1', '2', '7']);
    assert(b.take(1) =~= seq!['0']);
    assert(c.take(1) =~= seq!['0']);
    assert(text::pieces(d, '.') =~= seq![d]);
    assert(text::pieces(c, '.') =~= seq![seq!['0'], d]);
    assert(text::pieces(b, '.') =~= seq![seq!['0'], seq!['0'], d]);
    assert(text::pieces(all, '.') =~= seq![seq!['1', '2', '7'], seq!['0'], seq!['0'], d]);
}

/// The value of the relay's address.
proof fn lemma_relay_value(all: Seq<char>)
    requires
        all == seq!['1', '2', '7', '.', '0', '.', '0', '.', '1'],
    ensures
        address::v4_value(all) == Some(0x7f00_0001nat),
{
    lemma_relay_pieces(all);
    lemma_octets();
}

/// The address of the relay is a loopback address.
proof fn lemma_relay_address()
    ensures
        address::parsed("127.0.0.1"@) == Some(address::Ip::V4(0x7f00_0001)),
        text::is_field("127.0.0.1"@),
{
    let all = "127.0.0.1"@;
    assert(all =~= seq!['1', '2', '7', '.', '0', '.', '0', '.', '1']) by {
        reveal_strlit("127.0.0.1");
    }
    assert(text::is_field(all));
    lemma_relay_value(all);
}

/// The first field of a candidate line still announces a candidate.
proof fn lemma_candidate_field(line: Seq<char>)
    requires
        is_candidate(line),
    ensures
        text::fields(line).len() > 0,
        is_candidate(text::fields(line)[0]),
{
    reveal_strlit("a=candidate:");
    let prefix = "a=candidate:"@;
    assert forall|i: int| 0 <= i < prefix.len() implies line[i] == prefix[i] && !text::is_space(
        #[trigger] line[i],
    ) by {
        assert(line.subrange(0, prefix.len() as int)[i] == line[i]);
    }
    text::lemma_run_is(line, text::blank(), 0);
    assert(line.skip(0) =~= line);
    text::lemma_run(line, text::solid());
    let end = text::run(line, text::solid()) as int;
    if end < prefix.len() {
        assert(text::is_space(line[end]));
    }
    assert(prefix =~= line.take(end).subrange(0, prefix.len() as int));
}

/// A text that starts with a candidate announcement announces a candidate.
proof fn lemma_candidate_joined(fields: Seq<Seq<char>>)
    requires
        fields.len() > 1,
        is_candidate(fields[0]),
    ensures
        is_candidate(text::joined(fields, " "@)),
{
    text::lemma_joined_front(fields, " "@);
    let all = text::joined(fields, " "@);
    let prefix = "a=candidate:"@;
    assert(all.subrange(0, prefix.len() as int) =~= fields[0].subrange(0, prefix.len() as int));
}

/// What the relay makes of one candidate line: the same fields but for the address and the port,
/// and no fault.
proof fn lemma_relayed_line(line: Seq<char>, port: u16)
    requires
        is_candidate(line),
        fault(text::fields(line)) is None,
    ensures
        is_candidate(relayed_line(line, port)),
        text::fields(relayed_line(line, port)) == relayed_fields(text::fields(line), port),
        fault(text::fields(relayed_line(line, port))) is None,
        forall|i: int|
            0 <= i < relayed_line(line, port).len() ==> #[trigger] relayed_line(line, port)[i]
                != '\n',
{
    let fields = text::fields(line);
    let new_fields = relayed_fields(fields, port);
    lemma_relay_address();
    text::lemma_decimal_is_field(port as nat);
    text::lemma_fields_are_fields(line);
    assert forall|i: int| 0 <= i < new_fields.len() implies text::is_field(
        #[trigger] new_fields[i],
    ) by {
        if i != 4 && i != 5 {
            assert(new_fields[i] == fields[i]);
        }
    }
    text::lemma_fields_of_joined(new_fields);
    lemma_candidate_field(line);
    lemma_candidate_joined(new_fields);
    lemma_joined_within_line(new_fields);
}

/// Fields and spaces hold no line feed.
proof fn lemma_joined_within_line(fields: Seq<Seq<char>>)
    requires
        forall|i: int| 0 <= i < fields.len() ==> text::is_field(#[trigger] fields[i]),
    ensures
        forall|i: int|
            0 <= i < text::joined(fields, " "@).len() ==> #[trigger] text::joined(fields, " "@)[i]
                != '\n',
    decreases fields.len(),
{
    reveal_strlit(" ");
    if fields.len() == 1 {
        assert(text::is_field(fields[0]));
    } else if fields.len() > 1 {
        let front = fields.drop_last();
        assert(forall|i: int| 0 <= i < front.len() ==> front[i] == fields[i]);
        lemma_joined_within_line(front);
        assert(text::is_field(fields[fields.len() - 1]));
        let all = text::joined(fields, " "@);
        let head = text::joined(front, " "@);
        assert forall|i: int| 0 <= i < all.len() implies #[trigger] all[i] != '\n' by {
            if i < head.len() {
                assert(all[i] == head[i]);
            } else if i > head.len() {
                assert(all[i] == fields.last()[i - head.len() - 1]);
            }
        }
    }
}

/// Without faults in its lines a description has none.
proof fn lemma_all_sound(lines: Seq<Seq<char>>)
    requires
        forall|i: int|
            0 <= i < lines.len() && is_candidate(#[trigger] lines[i]) ==> fault(
                text::fields(lines[i]),
            ) is None,
    ensures
        first_fault(lines) is None,
    decreases lines.len(),
{
    if lines.len() > 0 {
        let rest = lines.drop_first();
        assert forall|i: int| 0 <= i < rest.len() && is_candidate(#[trigger] rest[i]) implies fault(
            text::fields(rest[i]),
        ) is None by {
            assert(rest[i] == lines[i + 1]);
        }
        lemma_all_sound(rest);
    }
}

/// The relay takes the place of every candidate: an accepted description stays acceptable, its
/// lines stay where they are, a line that announces no candidate is unchanged, and a candidate
/// keeps all its fields but the address, which is 127.0.0.1, and the port.
pub proof fn law_relay_replaces_every_candidate(sdp: Seq<char>, port: u16)
    requires
        verdict(sdp) is None,
    ensures
        verdict(relayed(sdp, port)) is None,
        text::lines(relayed(sdp, port)).len() == text::lines(sdp).len(),
        forall|i: int|
            0 <= i < text::lines(sdp).len() ==> {
                let before = #[trigger] text::lines(sdp)[i];
                let after = text::lines(relayed(sdp, port))[i];
                if is_candidate(before) {
                    &&& is_candidate(after)
                    &&& text::fields(after) == text::fields(before).update(4, "127.0.0.1"@).update(
                        5,
                        text::decimal(port as nat),
                    )
                } else {
                    after == before
                }
            },
{
    let old_lines = text::lines(sdp);
    let new_lines = relayed_lines(old_lines, port);
    text::lemma_lines_within(sdp);
    assert forall|i: int| 0 <= i < old_lines.len() && is_candidate(#[trigger] old_lines[i]) implies {
        &&& is_candidate(new_lines[i])
        &&& fault(text::fields(new_lines[i])) is None
        &&& text::fields(new_lines[i]) == relayed_fields(text::fields(old_lines[i]), port)
    } by {
        lemma_no_fault(old_lines, i);
        lemma_relayed_line(old_lines[i], port);
    }
    assert forall|i: int, j: int| 0 <= i < new_lines.len() && 0 <= j < new_lines[i].len() implies
        #[trigger] new_lines[i][j] != '\n' by {
        if is_candidate(old_lines[i]) {
            lemma_no_fault(old_lines, i);
            lemma_relayed_line(old_lines[i], port);
        } else {
            assert(new_lines[i] == old_lines[i]);
            assert(old_lines[i][j] != '\n');
        }
    }
    let first = choose|i: int| 0 <= i < old_lines.len() && is_candidate(#[trigger] old_lines[i]);
    assert(is_candidate(new_lines[first]));
    text::lemma_lines_of_joined(new_lines);
    assert forall|i: int| 0 <= i < new_lines.len() && is_candidate(#[trigger] new_lines[i]) implies fault(
        text::fields(new_lines[i]),
    ) is None by {
        if !is_candidate(old_lines[i]) {
            assert(new_lines[i] == old_lines[i]);
        }
    }
    lemma_all_sound(new_lines);
}

/// Relaying twice is relaying to the second port.
pub proof fn law_relay_twice(sdp: Seq<char>, first: u16, second: u16)
    requires
        verdict(sdp) is None,
    ensures
        relayed(relayed(sdp, first), second) == relayed(sdp, second),
{
    law_relay_replaces_every_candidate(sdp, first);
    let old_lines = text::lines(sdp);
    let new_lines = text::lines(relayed(sdp, first));
    assert forall|i: int| 0 <= i < old_lines.len() implies relayed_line(new_lines[i], second)
        == relayed_line(#[trigger] old_lines[i], second) by {
        if is_candidate(old_lines[i]) {
            lemma_no_fault(old_lines, i);
            let fields = text::fields(old_lines[i]);
            assert(relayed_fields(relayed_fields(fields, first), second) =~= relayed_fields(
                fields,
                second,
            ));
        }
    }
    assert(relayed_lines(new_lines, second) =~= relayed_lines(old_lines, second));
}

/// How a participant takes part in a call. Frequencies are bit patterns of 32 bit floating point
/// numbers.
#[derive(Clone, Debug)]
pub struct Options {
    pub id: String,
    /// The port for media, where a relay stands between the participants.
    pub media_port: Option<u16>,
    /// The port of the relay, which takes the place of all others.
    pub peer_relay: Option<u16>,
    /// Whether pictures adapt to loss.
    pub adaptive: bool,
    pub room: String,
    pub server: Endpoint,
    pub source: Source,
    pub sink: Sink,
    pub input_device: Option<String>,
    pub output_device: Option<String>,
    pub tone_hz: u32,
    /// Takes the place of the profile's bits per second.
    pub bitrate: Option<u32>,
    pub audio_profile: Profile,
    pub audio_complexity: u8,
    pub no_audio_dtx: bool,
    /// How many seconds a connection lasts; zero is until it is left.
    pub duration: u64,
    pub connect_timeout: u64,
    pub stats_file: Option<String>,
    pub no_stdin: bool,
    pub video: video::Options,
}

/// Whether a bit pattern is that of a frequency from 20 to 4000. The patterns of positive numbers
/// are ordered as the numbers are.
pub open spec fn is_tone(bits: u32) -> bool {
    0x41a0_0000 <= bits <= 0x457a_0000
}

impl Options {
    /// Whether the call sends pictures, and so keeps sound together with them.
    pub open spec fn with_video(self) -> bool {
        self.video.video != VideoSource::Off
    }

    /// Whether the call sends pictures, and so keeps sound together with them.
    pub fn sends_video(&self) -> (r: bool)
        ensures
            r == self.with_video(),
    {
        self.video.video != VideoSource::Off
    }

    /// Checks the frequency of the test tone.
    pub fn check_tone(&self) -> (r: Result<(), &'static str>)
        ensures
            r is Ok <==> is_tone(self.tone_hz),
            r matches Err(message) ==> message@ == "--tone-hz must be between 20 and 4000"@,
    {
        if self.tone_hz < 0x41a0_0000 || self.tone_hz > 0x457a_0000 {
            return Err("--tone-hz must be between 20 and 4000");
        }
        Ok(())
    }

    /// What limits the call.
    pub fn limits(&self) -> (r: Limits)
        ensures
            r == (Limits {
                duration: self.duration,
                connect_timeout: self.connect_timeout,
                source: self.source,
            }),
    {
        Limits {
            duration: self.duration,
            connect_timeout: self.connect_timeout,
            source: self.source,
        }
    }
}

/// Checks the port for media.
pub fn check_media_port(port: Option<u16>) -> (r: Result<(), &'static str>)
    ensures
        r is Ok <==> port != Some(0u16),
        r matches Err(message) ==> message@ == "media port must be nonzero"@,
{
    match port {
        Some(0) => Err("media port must be nonzero"),
        _ => Ok(()),
    }
}

/// Whether a connection may use an address of this host: a loopback address, and the first of
/// them alone where a relay stands between the participants.
pub fn admits_address(ip: Ip, relayed: bool) -> (r: bool)
    ensures
        r == (if relayed {
            ip == Ip::V4(0x7f00_0001)
        } else {
            ip.local()
        }),
{
    if relayed {
        ip == Ip::V4(0x7f00_0001)
    } else {
        ip.is_loopback()
    }
}

/// How the end of a call is reported: the reason, or what went wrong.
pub fn outcome(result: Result<&str, &str>) -> (r: String)
    ensures
        r@ == (match result {
            Ok(reason) => reason@,
            Err(error) => "error: "@ + error@,
        }),
{
    match result {
        Ok(reason) => String::from_str(reason),
        Err(error) => {
            let mut list = text::characters("error: ");
            text::write_text(&mut list, error);
            text::string_from(&list)
        },
    }
}

/// Notes how much the connection has carried.
pub fn note_transport(metrics: &mut Metrics, sent: u64, received: u64)
    ensures
        *final(metrics) == (Metrics {
            transport_tx: sent,
            transport_rx: received,
            ..*old(metrics)
        }),
{
    metrics.transport_tx = sent;
    metrics.transport_rx = received;
}

/// A description that is accepted keeps the call on this host: it has a candidate, and each of its
/// candidates names a loopback address, over UDP, as a host candidate.
pub proof fn law_accepted_candidates_are_local(sdp: Seq<char>)
    requires
        verdict(sdp) is None,
    ensures
        offers(text::lines(sdp)),
        forall|i: int|
            0 <= i < text::lines(sdp).len() && is_candidate(#[trigger] text::lines(sdp)[i]) ==> {
                let fields = text::fields(text::lines(sdp)[i]);
                &&& fields.len() > 7
                &&& address::parsed(fields[4]) matches Some(ip) && ip.local()
                &&& is_udp(fields[2])
                &&& fields[7] == "host"@
            },
{
    let lines = text::lines(sdp);
    assert forall|i: int| 0 <= i < lines.len() && is_candidate(#[trigger] lines[i]) implies {
        let fields = text::fields(lines[i]);
        &&& fields.len() > 7
        &&& address::parsed(fields[4]) matches Some(ip) && ip.local()
        &&& is_udp(fields[2])
        &&& fields[7] == "host"@
    } by {
        lemma_no_fault(lines, i);
    }
}

/// A codec that both participants know: what it is called, how it is parameterised, the payload
/// type of its packets, and the header extension that carries the creation time.
#[derive(Clone, Copy, Debug)]
pub struct Codec {
    pub mime_type: &'static str,
    pub clock_rate: u32,
    pub channels: u16,
    pub sdp_fmtp_line: &'static str,
    pub payload_type: u8,
    pub extension: &'static str,
}

/// The codec of sound. It is announced with two channels, and one is sent.
pub fn audio_codec() -> (r: Codec)
    ensures
        r.mime_type@ == "audio/opus"@,
        r.clock_rate == RATE,
        r.channels == 2,
        r.sdp_fmtp_line@ == "minptime=10;useinbandfec=0;stereo=0"@,
        r.payload_type == AUDIO_PAYLOAD,
        r.extension@ == "urn:rcof:same-host-frame-created-us"@,
{
    Codec {
        mime_type: "audio/opus",
        clock_rate: RATE,
        channels: 2,
        sdp_fmtp_line: "minptime=10;useinbandfec=0;stereo=0",
        payload_type: AUDIO_PAYLOAD,
        extension: "urn:rcof:same-host-frame-created-us",
    }
}

/// The codec of pictures.
pub fn video_codec() -> (r: Codec)
    ensures
        r.mime_type@ == "video/VP8"@,
        r.clock_rate == 90_000,
        r.channels == 0,
        r.sdp_fmtp_line@ == ""@,
        r.payload_type == VIDEO_PAYLOAD,
        r.extension@ == "urn:rcof:same-host-video-created-us"@,
{
    Codec {
        mime_type: "video/VP8",
        clock_rate: 90_000,
        channels: 0,
        sdp_fmtp_line: "",
        payload_type: VIDEO_PAYLOAD,
        extension: "urn:rcof:same-host-video-created-us",
    }
}

/// Whether the fields of a candidate keep the call on this host: a loopback address, over UDP in
/// letters of either case, as a host candidate.
pub open spec fn stays_here(fields: Seq<Seq<char>>) -> bool {
    &&& fields.len() >= 8
    &&& match address::parsed(fields[4]) {
        Some(Ip::V4(value)) => 0x7f00_0000 <= value <= 0x7fff_ffff,
        Some(Ip::V6(value)) => value == 1,
        None => false,
    }
    &&& fields[2].len() == 3 && (fields[2][0] == 'u' || fields[2][0] == 'U') && (fields[2][1] == 'd'
        || fields[2][1] == 'D') && (fields[2][2] == 'p' || fields[2][2] == 'P')
    &&& fields[7] == seq!['h', 'o', 's', 't']
}

/// Whether a line begins with the words that announce a candidate.
pub open spec fn announces(line: Seq<char>) -> bool {
    line.len() >= 12 && line.take(12) == seq![
        'a',
        '=',
        'c',
        'a',
        'n',
        'd',
        'i',
        'd',
        'a',
        't',
        'e',
        ':',
    ]
}

proof fn lemma_announces(line: Seq<char>)
    ensures
        is_candidate(line) == announces(line),
{
    reveal_strlit("a=candidate:");
    let words = seq!['a', '=', 'c', 'a', 'n', 'd', 'i', 'd', 'a', 't', 'e', ':'];
    assert("a=candidate:"@ =~= words);
    if line.len() >= 12 {
        assert(line.take(12) == line.subrange(0, 12));
    }
}

proof fn lemma_stays_here(fields: Seq<Seq<char>>)
    ensures
        fault(fields) is None <==> stays_here(fields),
{
    reveal_strlit("host");
    assert("host"@ =~= seq!['h', 'o', 's', 't']);
}

/// A description is accepted exactly if it has a candidate and each of its candidates keeps the call on
/// this host.
pub proof fn law_which_candidates_are_accepted(sdp: Seq<char>)
    ensures
        verdict(sdp) is None <==> {
            &&& exists|i: int|
                0 <= i < text::lines(sdp).len() && announces(#[trigger] text::lines(sdp)[i])
            &&& forall|i: int|
                0 <= i < text::lines(sdp).len() && announces(#[trigger] text::lines(sdp)[i])
                    ==> stays_here(text::fields(text::lines(sdp)[i]))
        },
{
    let lines = text::lines(sdp);
    assert forall|i: int| 0 <= i < lines.len() implies is_candidate(#[trigger] lines[i])
        == announces(lines[i]) by {
        lemma_announces(lines[i]);
    }
    if verdict(sdp) is None {
        let i = choose|i: int| 0 <= i < lines.len() && is_candidate(#[trigger] lines[i]);
        assert(announces(lines[i]));
        assert forall|i: int| 0 <= i < lines.len() && announces(#[trigger] lines[i]) implies stays_here(
            text::fields(lines[i]),
        ) by {
            lemma_no_fault(lines, i);
            lemma_stays_here(text::fields(lines[i]));
        }
    } else if forall|i: int|
        0 <= i < lines.len() && announces(#[trigger] lines[i]) ==> stays_here(
            text::fields(lines[i]),
        ) {
        assert forall|i: int| 0 <= i < lines.len() && is_candidate(#[trigger] lines[i]) implies fault(
            text::fields(lines[i]),
        ) is None by {
            lemma_stays_here(text::fields(lines[i]));
        }
        lemma_all_sound(lines);
        assert(!offers(lines));
    }
}

/// What is told of a refused description is the fault of its first candidate that has one: without an
/// address it is malformed, with a name in the place of the address it names a host, and otherwise it
/// leads away from this host. Without a candidate there is nothing to connect to.
pub proof fn law_first_bad_candidate_is_told(sdp: Seq<char>, i: int)
    ensures
        0 <= i < text::lines(sdp).len() && announces(text::lines(sdp)[i]) && !stays_here(
            text::fields(text::lines(sdp)[i]),
        ) && (forall|k: int|
            0 <= k < i && announces(#[trigger] text::lines(sdp)[k]) ==> stays_here(
                text::fields(text::lines(sdp)[k]),
            )) ==> {
            let fields = text::fields(text::lines(sdp)[i]);
            verdict(sdp) == Some(
                if fields.len() < 5 {
                    SdpError::Malformed
                } else if address::parsed(fields[4]) is None {
                    SdpError::Name
                } else {
                    SdpError::Rejected
                },
            )
        },
        (forall|k: int|
            0 <= k < text::lines(sdp).len() ==> !announces(#[trigger] text::lines(sdp)[k]))
            ==> verdict(sdp) == Some(SdpError::NoCandidates),
{
    let lines = text::lines(sdp);
    assert forall|k: int| 0 <= k < lines.len() implies is_candidate(#[trigger] lines[k])
        == announces(lines[k]) by {
        lemma_announces(lines[k]);
    }
    if 0 <= i < lines.len() && announces(lines[i]) && !stays_here(text::fields(lines[i])) && (forall|
        k: int,
    |
        0 <= k < i && announces(#[trigger] lines[k]) ==> stays_here(text::fields(lines[k]))) {
        lemma_stays_here(text::fields(lines[i]));
        assert forall|k: int| 0 <= k < i && is_candidate(#[trigger] lines[k]) implies fault(
            text::fields(lines[k]),
        ) is None by {
            lemma_stays_here(text::fields(lines[k]));
        }
        lemma_first_fault(lines, i);
    }
    if forall|k: int| 0 <= k < lines.len() ==> !announces(#[trigger] lines[k]) {
        lemma_all_sound(lines);
    }
}

proof fn lemma_first_fault(lines: Seq<Seq<char>>, i: int)
    requires
        0 <= i < lines.len(),
        is_candidate(lines[i]),
        fault(text::fields(lines[i])) is Some,
        forall|k: int|
            0 <= k < i && is_candidate(#[trigger] lines[k]) ==> fault(
                text::fields(lines[k]),
            ) is None,
    ensures
        first_fault(lines) == fault(text::fields(lines[i])),
    decreases lines.len(),
{
    if i > 0 {
        let rest = lines.drop_first();
        assert(lines[0] == lines[0]);
        assert(rest[i - 1] == lines[i]);
        assert forall|k: int| 0 <= k < i - 1 && is_candidate(#[trigger] rest[k]) implies fault(
            text::fields(rest[k]),
        ) is None by {
            assert(rest[k] == lines[k + 1]);
        }
        lemma_first_fault(rest, i - 1);
    }
}

} // verus!
