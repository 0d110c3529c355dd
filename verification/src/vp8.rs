//! VP8 pictures as packets: splitting a picture, putting it together again, and the container
//! that the encoder and the decoder speak.
use crate::packets;
use crate::packets::{PacketModel, RtpPacket};
use bytes::Bytes;
use vstd::prelude::*;
use webrtc::rtp::codecs::vp8::{Vp8Packet, Vp8Payloader};
use webrtc::rtp::packetizer::{Depacketizer, Payloader};

verus! {

/// The payload splitter of `webrtc::rtp`.
#[verifier::external_type_specification]
#[verifier::external_body]
pub struct ExVp8Payloader(Vp8Payloader);

/// The error of `webrtc::rtp`.
#[verifier::external_type_specification]
#[verifier::external_body]
pub struct ExRtpError(webrtc::rtp::Error);

/// The longest encoded picture that is sent or accepted.
pub const MAX_ENCODED: usize = 2_097_152;

/// The longest payload of a packet.
pub const MTU: usize = 1000;

/// What can be wrong with an encoded picture.
#[derive(Clone, Copy, Debug, PartialEq, Eq, Structural)]
pub enum VideoError {
    /// A packet that is too short for its payload descriptor.
    ShortPacket,
    /// The pieces of a picture are longer than any picture may be.
    FrameTooLarge,
    /// The encoder announced a picture without bytes or one that is too long.
    FrameLength,
    /// The encoder wrote something else than a VP8 stream.
    EncoderOutput,
}

impl VideoError {
    /// The error in words.
    pub fn message(self) -> (r: &'static str)
        ensures
            r@ == (match self {
                VideoError::ShortPacket => "packet is not large enough"@,
                VideoError::FrameTooLarge => "remote video frame too large"@,
                VideoError::FrameLength => "invalid VP8 frame length"@,
                VideoError::EncoderOutput => "unexpected encoder output"@,
            }),
    {
        match self {
            VideoError::ShortPacket => "packet is not large enough",
            VideoError::FrameTooLarge => "remote video frame too large",
            VideoError::FrameLength => "invalid VP8 frame length",
            VideoError::EncoderOutput => "unexpected encoder output",
        }
    }
}

/// The contents of a list of byte strings.
pub open spec fn contents(list: Seq<Vec<u8>>) -> Seq<Seq<u8>> {
    list.map_values(|bytes: Vec<u8>| bytes@)
}

/// The payload descriptor that opens a packet: one byte that marks the first packet of a picture
/// and, where pictures are numbered, the picture's number in one byte or two.
pub open spec fn descriptor(picture: Option<u16>, first: bool) -> Seq<u8> {
    match picture {
        None => seq![
            if first {
                0x10u8
            } else {
                0u8
            },
        ],
        Some(number) => {
            let head = if first {
                0x90u8
            } else {
                0x80u8
            };
            if number < 128 {
                seq![head, 0x80u8, number as u8]
            } else {
                seq![head, 0x80u8, (0x80 + number / 256) as u8, (number % 256) as u8]
            }
        },
    }
}

/// How many bytes of a picture one payload holds.
pub open spec fn room(mtu: int, picture: Option<u16>) -> int {
    mtu - descriptor(picture, false).len()
}

/// How many payloads a picture takes.
#[verifier::opaque]
pub open spec fn payload_count(length: int, room: int) -> int {
    if length <= 0 || room <= 0 {
        0
    } else {
        (length + room - 1) / room
    }
}

/// The part of a picture that stands in one payload.
#[verifier::opaque]
pub open spec fn piece(frame: Seq<u8>, room: int, index: int) -> Seq<u8> {
    frame.subrange(
        index * room,
        if (index + 1) * room < frame.len() {
            (index + 1) * room
        } else {
            frame.len() as int
        },
    )
}

/// The payloads of a picture.
pub open spec fn payloads(frame: Seq<u8>, mtu: int, picture: Option<u16>) -> Seq<Seq<u8>> {
    Seq::new(
        payload_count(frame.len() as int, room(mtu, picture)) as nat,
        |i: int| descriptor(picture, i == 0) + piece(frame, room(mtu, picture), i),
    )
}

/// Whether a list holds the payloads of a picture, numbered with some number of fifteen bits where
/// pictures are numbered.
pub open spec fn is_split(list: Seq<Seq<u8>>, frame: Seq<u8>, mtu: int, numbered: bool) -> bool {
    if numbered {
        exists|number: u16|
            number <= 0x7fff && list == #[trigger] payloads(frame, mtu, Some(number))
    } else {
        list == payloads(frame, mtu, None)
    }
}

/// A list that holds the payloads of a picture, and no error.
pub open spec fn split_result(
    result: Result<Vec<Vec<u8>>, webrtc::rtp::Error>,
    frame: Seq<u8>,
    mtu: int,
    numbered: bool,
) -> bool {
    match result {
        Ok(list) => is_split(contents(list@), frame, mtu, numbered),
        Err(_) => false,
    }
}

/// Splits a picture into payloads, by `Payloader::payload` of `Vp8Payloader` with its
/// `enable_picture_id` set as asked. It never fails. The picture's number is one that the
/// splitter keeps count of; which one it is remains unsaid.
#[verifier::external_body]
fn vp8_payload(
    payloader: &mut Vp8Payloader,
    numbered: bool,
    mtu: usize,
    frame: &[u8],
) -> (r: Result<Vec<Vec<u8>>, webrtc::rtp::Error>)
    requires
        mtu <= 0x7fff_ffff,
        frame@.len() <= 0x7fff_ffff,
    ensures
        split_result(r, frame@, mtu as int, numbered),
{
    payloader.enable_picture_id = numbered;
    let list = payloader.payload(mtu, &Bytes::copy_from_slice(frame))?;
    Ok(list.iter().map(|bytes| bytes.to_vec()).collect())
}

/// How many bytes stand before the picture in a payload: the first byte, the flags that its top
/// bit announces, and the fields that the flags announce.
#[verifier::opaque]
pub open spec fn descriptor_length(payload: Seq<u8>) -> int {
    let flags = if payload[0] >= 0x80 {
        payload[1]
    } else {
        0
    };
    1 + (if payload[0] >= 0x80 {
        1int
    } else {
        0
    }) + (if flags >= 0x80 {
        if payload[2] >= 0x80 {
            2int
        } else {
            1
        }
    } else {
        0
    }) + (if flags / 64 % 2 == 1 {
        1int
    } else {
        0
    }) + (if flags / 32 % 2 == 1 || flags / 16 % 2 == 1 {
        1int
    } else {
        0
    })
}

/// Whether a payload has room for its descriptor and at least one byte more.
pub open spec fn readable(payload: Seq<u8>) -> bool {
    payload.len() >= 4 && descriptor_length(payload) < payload.len()
}

/// Reads a payload, by `Depacketizer::depacketize` of a fresh `Vp8Packet`: the flag that starts a
/// partition, the partition's index, and what follows the descriptor. It fails on a payload that
/// ends before that.
#[verifier::external_body]
fn vp8_depacketize(payload: &[u8]) -> (r: Result<(u8, u8, Vec<u8>), webrtc::rtp::Error>)
    ensures
        r is Ok <==> readable(payload@),
        r matches Ok((start, partition, rest)) ==> {
            &&& start == payload@[0] / 16 % 2
            &&& partition == payload@[0] % 8
            &&& rest@ == payload@.skip(descriptor_length(payload@))
        },
{
    let mut descriptor = Vp8Packet::default();
    let rest = descriptor.depacketize(&Bytes::copy_from_slice(payload))?;
    Ok((descriptor.s, descriptor.pid, rest.to_vec()))
}

/// The contents of a list of packets.
pub open spec fn packet_models(list: Seq<RtpPacket>) -> Seq<PacketModel> {
    list.map_values(|packet: RtpPacket| packet@)
}

/// The packets of a picture: one for each payload, numbered from `sequence` on, all with one
/// timestamp and one extension, the last one marked.
pub open spec fn picture_packets(
    parts: Seq<Seq<u8>>,
    sequence: u16,
    timestamp: u32,
    extension: Option<Seq<u8>>,
) -> Seq<PacketModel> {
    Seq::new(
        parts.len(),
        |i: int|
            PacketModel {
                sequence_number: wrapped(sequence, i),
                timestamp,
                marker: i + 1 == parts.len(),
                extension,
                payload: parts[i],
            },
    )
}

/// A sequence number some packets later.
#[verifier::opaque]
pub open spec fn wrapped(sequence: u16, offset: int) -> u16 {
    ((sequence + offset) % 0x1_0000) as u16
}

proof fn lemma_wrapped(sequence: u16, offset: int)
    ensures
        wrapped(sequence, 0) == sequence,
        wrapped(sequence, 1) == sequence.wrapping_add(1),
        wrapped(wrapped(sequence, offset), 1) == wrapped(sequence, offset + 1),
        wrapped(sequence, offset + 1) != wrapped(sequence, offset),
{
    reveal(wrapped);
}

/// The extension that carries a creation time, where one was negotiated.
pub open spec fn stamp_extension(created: u64, stamped: bool) -> Option<Seq<u8>> {
    if stamped {
        Some(packets::big_endian_bytes(created as nat, 8))
    } else {
        None
    }
}

/// Where the sending side stands in its stream.
pub struct VideoSequence {
    pub sequence: u16,
    pub rtp_time: u32,
}

impl VideoSequence {
    /// A stream that has not begun.
    pub fn new() -> (r: Self)
        ensures
            r.sequence == 0,
            r.rtp_time == 0,
    {
        VideoSequence { sequence: 0, rtp_time: 0 }
    }

    /// The packets of an encoded picture, numbered from where the stream stands. The stream moves on
    /// with `sent` and `finish`.
    pub fn packetize(
        &self,
        payloader: &mut Vp8Payloader,
        frame: &[u8],
        created: u64,
        stamped: bool,
    ) -> (r: Vec<RtpPacket>)
        requires
            frame@.len() <= MAX_ENCODED,
        ensures
            exists|number: u16|
                number <= 0x7fff && packet_models(r@) == picture_packets(
                    #[trigger] payloads(frame@, MTU as int, Some(number)),
                    self.sequence,
                    self.rtp_time,
                    stamp_extension(created, stamped),
                ),
    {
        let mut packets: Vec<RtpPacket> = Vec::new();
        proof {
            reveal(payload_count);
            lemma_wrapped(self.sequence, 0);
        }
        if let Ok(parts) = vp8_payload(payloader, true, MTU, frame) {
            let ghost bytes = contents(parts@);
            let count: usize = parts.len();
            let mut sequence: u16 = self.sequence;
            let mut i: usize = 0;
            while i < count
                invariant
                    i <= count,
                    count == parts@.len(),
                    bytes == contents(parts@),
                    packets@.len() == i,
                    sequence == wrapped(self.sequence, i as int),
                    forall|k: int|
                        0 <= k < i ==> #[trigger] packets@[k]@ == picture_packets(
                            bytes,
                            self.sequence,
                            self.rtp_time,
                            stamp_extension(created, stamped),
                        )[k],
                decreases count - i,
            {
                let extension = if stamped {
                    Some(packets::write_stamp(created))
                } else {
                    None
                };
                let payload = copy(&parts[i]);
                packets.push(
                    RtpPacket {
                        sequence_number: sequence,
                        timestamp: self.rtp_time,
                        marker: i + 1 == count,
                        extension,
                        payload,
                    },
                );
                proof {
                    lemma_wrapped(sequence, 0);
                    lemma_wrapped(self.sequence, i as int);
                }
                sequence = sequence.wrapping_add(1);
                i += 1;
            }
            assert(packet_models(packets@) =~= picture_packets(
                bytes,
                self.sequence,
                self.rtp_time,
                stamp_extension(created, stamped),
            ));
        }
        packets
    }

    /// Moves on by one packet, once it was written.
    pub fn sent(&mut self)
        ensures
            *final(self) == (VideoSequence {
                sequence: wrapped(old(self).sequence, 1),
                ..*old(self)
            }),
    {
        proof {
            lemma_wrapped(self.sequence, 0);
        }
        self.sequence = self.sequence.wrapping_add(1);
    }

    /// Moves on by one picture, once all its packets were written.
    pub fn finish(&mut self, fps: u32)
        requires
            0 < fps,
        ensures
            *final(self) == (VideoSequence {
                rtp_time: old(self).rtp_time.wrapping_add((90_000u32 / fps) as u32),
                ..*old(self)
            }),
    {
        self.rtp_time = self.rtp_time.wrapping_add(90_000 / fps);
    }
}

/// Where a stream stands once some packets of a picture were written.
pub open spec fn after_writes(sequence: u16, count: nat) -> u16
    decreases count,
{
    if count == 0 {
        sequence
    } else {
        wrapped(after_writes(sequence, (count - 1) as nat), 1)
    }
}

/// Every packet of a picture has the number at which the stream stands when those before it were
/// written; so a picture that is cut off leaves no gap before the next one.
pub proof fn law_numbers_follow_writes(
    parts: Seq<Seq<u8>>,
    sequence: u16,
    timestamp: u32,
    extension: Option<Seq<u8>>,
    count: nat,
)
    ensures
        after_writes(sequence, count) == wrapped(sequence, count as int),
        count < parts.len() ==> picture_packets(
            parts,
            sequence,
            timestamp,
            extension,
        )[count as int].sequence_number == after_writes(sequence, count),
    decreases count,
{
    lemma_wrapped(sequence, count - 1);
    if count > 0 {
        law_numbers_follow_writes(parts, sequence, timestamp, extension, (count - 1) as nat);
    }
}

/// A copy of a list of bytes.
fn copy(bytes: &Vec<u8>) -> (r: Vec<u8>)
    ensures
        r@ == bytes@,
{
    let mut r: Vec<u8> = Vec::new();
    r.extend_from_slice(bytes.as_slice());
    assert(r@ =~= bytes@);
    r
}

/// Whether a picture can be decoded on its own.
pub open spec fn is_keyframe(frame: Seq<u8>) -> bool {
    frame_size(frame) is Some
}

/// The size that a keyframe states, where it is one that is accepted.
pub open spec fn frame_size(frame: Seq<u8>) -> Option<(u32, u32)> {
    if frame.len() < 10 || frame[0] % 2 == 1 || frame[3] != 0x9d || frame[4] != 0x01 || frame[5]
        != 0x2a {
        None
    } else {
        let width = (frame[6] + 256 * frame[7]) % 0x4000;
        let height = (frame[8] + 256 * frame[9]) % 0x4000;
        if 1 <= width <= 1280 && 1 <= height <= 720 {
            Some((width as u32, height as u32))
        } else {
            None
        }
    }
}

/// Reads the size of a keyframe.
pub fn keyframe_size(frame: &[u8]) -> (r: Option<(u32, u32)>)
    ensures
        r == frame_size(frame@),
{
    if frame.len() < 10 || frame[0] % 2 == 1 || frame[3] != 0x9d || frame[4] != 0x01 || frame[5]
        != 0x2a {
        return None;
    }
    let width: u32 = (frame[6] as u32 + 256 * (frame[7] as u32)) % 0x4000;
    let height: u32 = (frame[8] as u32 + 256 * (frame[9] as u32)) % 0x4000;
    if 1 <= width && width <= 1280 && 1 <= height && height <= 720 {
        Some((width, height))
    } else {
        None
    }
}

/// A complete encoded picture and the time at which it was made.
#[derive(Clone, Debug)]
pub struct EncodedFrame {
    pub data: Vec<u8>,
    pub created: u64,
}

/// The pieces of the picture that is being received. Incomplete and oversized pictures are given
/// up, and after a gap only a keyframe counts as a picture.
pub struct Reassembler {
    pub timestamp: Option<u32>,
    pub next: u16,
    pub bytes: Vec<u8>,
    pub created: u64,
    pub waiting_key: bool,
    pub last_sequence: Option<u16>,
}

/// The state of a reassembler.
#[verifier::ext_equal]
pub struct Assembly {
    pub timestamp: Option<u32>,
    pub next: u16,
    pub bytes: Seq<u8>,
    pub created: u64,
    pub waiting_key: bool,
    pub last_sequence: Option<u16>,
}

impl View for Reassembler {
    type V = Assembly;

    open spec fn view(&self) -> Assembly {
        Assembly {
            timestamp: self.timestamp,
            next: self.next,
            bytes: self.bytes@,
            created: self.created,
            waiting_key: self.waiting_key,
            last_sequence: self.last_sequence,
        }
    }
}

/// What a packet makes of a reassembler.
pub enum Outcome {
    /// The packet cannot be read.
    Short,
    /// The picture has become too long.
    TooLarge,
    /// No picture is complete.
    Nothing,
    /// A picture is complete: its bytes and its creation time.
    Complete(Seq<u8>, u64),
}

impl Assembly {
    /// Whether a packet is not the one after the packet before it.
    pub open spec fn gap(self, sequence: u16) -> bool {
        self.last_sequence matches Some(last) && sequence != wrapped(last, 1)
    }

    /// The state once the packet's number has been looked at.
    pub open spec fn noted(self, packet: PacketModel) -> Assembly {
        Assembly {
            waiting_key: self.waiting_key || self.gap(packet.sequence_number),
            last_sequence: Some(packet.sequence_number),
            ..self
        }
    }

    /// The state once the packet's descriptor has been looked at: the first packet of a picture
    /// begins it anew.
    pub open spec fn begun(self, packet: PacketModel, created: u64) -> Assembly {
        if packet.payload[0] / 16 % 2 == 1 && packet.payload[0] % 8 == 0 {
            Assembly {
                timestamp: Some(packet.timestamp),
                next: packet.sequence_number,
                bytes: seq![],
                created,
                ..self
            }
        } else {
            self
        }
    }

    /// The state once the packet's bytes have been added to the picture, and what came of it.
    pub open spec fn extended(self, packet: PacketModel) -> (Assembly, Outcome) {
        let rest = packet.payload.skip(descriptor_length(packet.payload));
        let whole = self.bytes + rest;
        let counted = Assembly { next: wrapped(self.next, 1), ..self };
        if self.timestamp != Some(packet.timestamp) || packet.sequence_number != self.next {
            (
                Assembly { timestamp: None, bytes: seq![], waiting_key: true, ..self },
                Outcome::Nothing,
            )
        } else if whole.len() > MAX_ENCODED {
            (counted, Outcome::TooLarge)
        } else if !packet.marker {
            (Assembly { bytes: whole, ..counted }, Outcome::Nothing)
        } else if self.waiting_key && !is_keyframe(whole) {
            (Assembly { timestamp: None, bytes: seq![], ..counted }, Outcome::Nothing)
        } else {
            (
                Assembly { timestamp: None, bytes: seq![], waiting_key: false, ..counted },
                Outcome::Complete(whole, self.created),
            )
        }
    }

    /// The state after a packet, and what came of it.
    pub open spec fn pushed(self, packet: PacketModel, created: u64) -> (Assembly, Outcome) {
        if !readable(packet.payload) {
            (self.noted(packet), Outcome::Short)
        } else {
            self.noted(packet).begun(packet, created).extended(packet)
        }
    }
}

/// A result of the reassembler and the outcome that it stands for.
pub open spec fn stands_for(
    result: Result<Option<EncodedFrame>, VideoError>,
    outcome: Outcome,
) -> bool {
    match outcome {
        Outcome::Short => result == Err::<Option<EncodedFrame>, _>(VideoError::ShortPacket),
        Outcome::TooLarge => result == Err::<Option<EncodedFrame>, _>(VideoError::FrameTooLarge),
        Outcome::Nothing => result matches Ok(None),
        Outcome::Complete(data, created) => {
            result matches Ok(Some(frame)) && frame.data@ == data && frame.created == created
        },
    }
}

impl Reassembler {
    /// No more bytes are kept than a picture may have.
    pub open spec fn wf(self) -> bool {
        self.bytes@.len() <= MAX_ENCODED
    }

    /// A reassembler that has seen nothing; one that waits for a keyframe passes no other picture
    /// on before it.
    pub fn new(waiting_key: bool) -> (r: Self)
        ensures
            r.wf(),
            r@ == Assembly::fresh(waiting_key),
    {
        let r = Reassembler {
            timestamp: None,
            next: 0,
            bytes: Vec::new(),
            created: 0,
            waiting_key,
            last_sequence: None,
        };
        assert(r.bytes@ =~= seq![]);
        r
    }

    /// Takes the next packet in, and returns the picture that it completes.
    pub fn push(&mut self, packet: &RtpPacket, created: u64) -> (r: Result<
        Option<EncodedFrame>,
        VideoError,
    >)
        requires
            old(self).wf(),
        ensures
            final(self)@ == old(self)@.pushed(packet@, created).0,
            stands_for(r, old(self)@.pushed(packet@, created).1),
            final(self).wf(),
    {
        let sequence = packet.sequence_number;
        proof {
            lemma_wrapped(sequence, 0);
        }
        if let Some(last) = self.last_sequence {
            proof {
                lemma_wrapped(last, 0);
            }
            if sequence != last.wrapping_add(1) {
                self.waiting_key = true;
            }
        }
        self.last_sequence = Some(sequence);
        let (start, partition, mut rest) = match vp8_depacketize(packet.payload.as_slice()) {
            Ok(parts) => parts,
            Err(_) => {
                return Err(VideoError::ShortPacket);
            },
        };
        if start == 1 && partition == 0 {
            self.timestamp = Some(packet.timestamp);
            self.next = sequence;
            self.bytes = Vec::new();
            self.created = created;
            assert(self.bytes@ =~= seq![]);
        }
        let ghost begun = old(self)@.noted(packet@).begun(packet@, created);
        assert(self@ =~= begun);
        let current = match self.timestamp {
            Some(timestamp) => timestamp == packet.timestamp,
            None => false,
        };
        if !current || sequence != self.next {
            self.timestamp = None;
            self.bytes = Vec::new();
            self.waiting_key = true;
            assert(self.bytes@ =~= seq![]);
            assert(self@ =~= begun.extended(packet@).0);
            return Ok(None);
        }
        self.next = self.next.wrapping_add(1);
        if rest.len() > MAX_ENCODED - self.bytes.len() {
            return Err(VideoError::FrameTooLarge);
        }
        self.bytes.append(&mut rest);
        assert(self.bytes@ =~= begun.bytes + packet@.payload.skip(
            descriptor_length(packet@.payload),
        ));
        if packet.marker {
            self.timestamp = None;
            let data = copy(&self.bytes);
            self.bytes = Vec::new();
            assert(self.bytes@ =~= seq![]);
            if self.waiting_key && keyframe_size(data.as_slice()).is_none() {
                assert(self@ =~= begun.extended(packet@).0);
                return Ok(None);
            }
            self.waiting_key = false;
            assert(self@ =~= begun.extended(packet@).0);
            return Ok(Some(EncodedFrame { data, created: self.created }));
        }
        assert(self@ =~= begun.extended(packet@).0);
        Ok(None)
    }
}

impl Assembly {
    /// The state after a list of packets with one creation time.
    pub open spec fn fed(self, list: Seq<PacketModel>, created: u64) -> Assembly
        decreases list.len(),
    {
        if list.len() == 0 {
            self
        } else {
            self.fed(list.drop_last(), created).pushed(list.last(), created).0
        }
    }

    /// What comes of one packet of a list.
    pub open spec fn outcome_at(self, list: Seq<PacketModel>, created: u64, i: int) -> Outcome {
        self.fed(list.take(i), created).pushed(list[i], created).1
    }

    /// Whether a picture whose first packet has the given number would be passed on.
    pub open spec fn accepts(self, sequence: u16, frame: Seq<u8>) -> bool {
        is_keyframe(frame) || (!self.waiting_key && !self.gap(sequence))
    }
}

/// Whether a picture can be sent so that every packet of it can be read: its number has fifteen bits,
/// or without a number its last payload has four bytes at least.
pub open spec fn sendable(frame: Seq<u8>, picture: Option<u16>) -> bool {
    match picture {
        Some(number) => number <= 0x7fff,
        None => frame.len() > 0 ==> payloads(frame, MTU as int, None).last().len() >= 4,
    }
}

/// A payload is read as the piece that was put into it.
proof fn lemma_read_back(picture: Option<u16>, first: bool, chunk: Seq<u8>)
    requires
        picture matches Some(number) ==> number <= 0x7fff,
        chunk.len() > 0,
        picture is None ==> chunk.len() >= 3,
    ensures
        ({
            let payload = descriptor(picture, first) + chunk;
            &&& readable(payload)
            &&& payload.skip(descriptor_length(payload)) == chunk
            &&& payload[0] / 16 % 2 == (if first {
                1int
            } else {
                0
            })
            &&& payload[0] % 8 == 0
        }),
{
    reveal(descriptor_length);
    let payload = descriptor(picture, first) + chunk;
    assert(descriptor_length(payload) == descriptor(picture, first).len());
    assert(payload.skip(descriptor_length(payload)) =~= chunk);
}

/// What a packet with a piece of a picture does.
proof fn lemma_push_piece(
    before: Assembly,
    packet: PacketModel,
    created: u64,
    picture: Option<u16>,
    first: bool,
    chunk: Seq<u8>,
)
    requires
        picture matches Some(number) ==> number <= 0x7fff,
        chunk.len() > 0,
        picture is None ==> chunk.len() >= 3,
        packet.payload == descriptor(picture, first) + chunk,
    ensures
        ({
            let noted = before.noted(packet);
            let begun = if first {
                Assembly {
                    timestamp: Some(packet.timestamp),
                    next: packet.sequence_number,
                    bytes: seq![],
                    created,
                    ..noted
                }
            } else {
                noted
            };
            before.pushed(packet, created) == begun.extended(packet)
        }),
        packet.payload.skip(descriptor_length(packet.payload)) == chunk,
{
    lemma_read_back(picture, first, chunk);
}

/// A picture that is not empty takes at least one payload.
proof fn lemma_payload_count(length: int, room: int)
    requires
        room > 0,
    ensures
        payload_count(length, room) >= 0,
        length > 0 ==> payload_count(length, room) >= 1,
{
    reveal(payload_count);
    if length > 0 {
        assert((length + room - 1) / room >= 1) by (nonlinear_arith)
            requires
                room > 0,
                length > 0,
        ;
    }
}

/// The pieces before the last are whole, and together they are the picture.
proof fn lemma_piece(frame: Seq<u8>, room: int, i: int)
    requires
        room > 0,
        0 <= i < payload_count(frame.len() as int, room),
    ensures
        piece(frame, room, i).len() > 0,
        i + 1 < payload_count(frame.len() as int, room) ==> piece(frame, room, i).len() == room,
        0 <= i * room < frame.len(),
        i + 1 < payload_count(frame.len() as int, room) ==> (i + 1) * room < frame.len(),
        i + 1 < payload_count(frame.len() as int, room) ==> frame.take(i * room) + piece(
            frame,
            room,
            i,
        ) == frame.take((i + 1) * room),
        i + 1 == payload_count(frame.len() as int, room) ==> frame.take(i * room) + piece(
            frame,
            room,
            i,
        ) == frame,
{
    reveal(piece);
    reveal(payload_count);
    let length = frame.len() as int;
    let count = payload_count(length, room);
    assert(count * room <= length + room - 1 < (count + 1) * room) by (nonlinear_arith)
        requires
            room > 0,
            count == (length + room - 1) / room,
    ;
    assert(0 <= i * room <= (count - 1) * room) by (nonlinear_arith)
        requires
            room > 0,
            0 <= i <= count - 1,
    ;
    assert((count - 1) * room == count * room - room && (count + 1) * room == count * room + room
        && (i + 1) * room == i * room + room) by (nonlinear_arith);
    if i + 1 < count {
        assert((i + 1) * room <= (count - 1) * room) by (nonlinear_arith)
            requires
                room > 0,
                i + 1 <= count - 1,
        ;
        assert(frame.take(i * room) + piece(frame, room, i) =~= frame.take((i + 1) * room));
    } else {
        assert(frame.take(i * room) + piece(frame, room, i) =~= frame);
    }
}

/// Without a number, every piece of a picture that can be sent is long enough to be read.
proof fn lemma_sendable_piece(frame: Seq<u8>, picture: Option<u16>, i: int)
    requires
        sendable(frame, picture),
        0 <= i < payload_count(frame.len() as int, room(MTU as int, picture)),
    ensures
        picture is None ==> piece(frame, room(MTU as int, picture), i).len() >= 3,
{
    let count = payload_count(frame.len() as int, room(MTU as int, picture));
    lemma_piece(frame, room(MTU as int, picture), i);
    if picture is None && i + 1 == count {
        assert(payloads(frame, MTU as int, picture).last() == descriptor(picture, i == 0) + piece(
            frame,
            room(MTU as int, picture),
            i,
        ));
    }
}

/// The state when some but not all packets of a picture have come.
proof fn lemma_in_progress(
    start: Assembly,
    frame: Seq<u8>,
    picture: Option<u16>,
    sequence: u16,
    timestamp: u32,
    extension: Option<Seq<u8>>,
    created: u64,
    list: Seq<PacketModel>,
    i: int,
)
    requires
        sendable(frame, picture),
        frame.len() <= MAX_ENCODED,
        list == picture_packets(
            payloads(frame, MTU as int, picture),
            sequence,
            timestamp,
            extension,
        ),
        0 < i < list.len(),
    ensures
        start.fed(list.take(i), created) == (Assembly {
            timestamp: Some(timestamp),
            next: wrapped(sequence, i),
            bytes: frame.take(i * room(MTU as int, picture)),
            created,
            waiting_key: start.waiting_key || start.gap(sequence),
            last_sequence: Some(wrapped(sequence, i - 1)),
        }),
        forall|k: int|
            0 <= k < i ==> (#[trigger] start.outcome_at(list, created, k)) is Nothing,
    decreases i,
{
    let r = room(MTU as int, picture);
    lemma_payload_count(frame.len() as int, r);
    lemma_piece(frame, r, i - 1);
    lemma_sendable_piece(frame, picture, i - 1);
    lemma_wrapped(sequence, i - 1);
    lemma_wrapped(sequence, i - 2);
    assert(list.take(i).drop_last() =~= list.take(i - 1));
    let before = start.fed(list.take(i - 1), created);
    lemma_push_piece(before, list[i - 1], created, picture, i - 1 == 0, piece(frame, r, i - 1));
    let after = before.pushed(list[i - 1], created);
    assert(start.fed(list.take(i), created) == after.0);
    assert(start.outcome_at(list, created, i - 1) == after.1);
    assert((i - 1 + 1) * r == i * r);
    assert(frame.take(i * r).len() == i * r <= frame.len());
    if i == 1 {
        assert(frame.take(0) =~= seq![]);
        assert(list.take(0) =~= seq![]);
        assert(before == start);
        assert(seq![] + piece(frame, r, 0) =~= piece(frame, r, 0));
        assert(0 * r == 0);
        assert(after.0 =~= Assembly {
            timestamp: Some(timestamp),
            next: wrapped(sequence, i),
            bytes: frame.take(i * r),
            created,
            waiting_key: start.waiting_key || start.gap(sequence),
            last_sequence: Some(wrapped(sequence, i - 1)),
        });
    } else {
        lemma_in_progress(
            start,
            frame,
            picture,
            sequence,
            timestamp,
            extension,
            created,
            list,
            i - 1,
        );
        assert(after.0 =~= Assembly {
            timestamp: Some(timestamp),
            next: wrapped(sequence, i),
            bytes: frame.take(i * r),
            created,
            waiting_key: start.waiting_key || start.gap(sequence),
            last_sequence: Some(wrapped(sequence, i - 1)),
        });
    }
}

/// A picture that was split into packets, with a number or without, and whose packets arrive in order
/// and complete, comes out of the reassembler with its last packet, byte for byte and with its
/// creation time.
pub proof fn law_picture_round_trip(
    start: Assembly,
    frame: Seq<u8>,
    picture: Option<u16>,
    sequence: u16,
    timestamp: u32,
    extension: Option<Seq<u8>>,
    created: u64,
)
    requires
        sendable(frame, picture),
        0 < frame.len() <= MAX_ENCODED,
        start.accepts(sequence, frame),
    ensures
        ({
            let list = picture_packets(
                payloads(frame, MTU as int, picture),
                sequence,
                timestamp,
                extension,
            );
            let last = list.len() - 1;
            &&& last >= 0
            &&& start.outcome_at(list, created, last) == Outcome::Complete(frame, created)
            &&& forall|k: int|
                0 <= k < last ==> (#[trigger] start.outcome_at(list, created, k)) is Nothing
            &&& start.fed(list, created) == (Assembly {
                timestamp: None,
                next: wrapped(sequence, list.len() as int),
                bytes: seq![],
                created,
                waiting_key: false,
                last_sequence: Some(wrapped(sequence, last)),
            })
        }),
{
    let list = picture_packets(
        payloads(frame, MTU as int, picture),
        sequence,
        timestamp,
        extension,
    );
    let r = room(MTU as int, picture);
    lemma_payload_count(frame.len() as int, r);
    let last = list.len() - 1;
    lemma_piece(frame, r, last);
    lemma_sendable_piece(frame, picture, last);
    lemma_wrapped(sequence, last);
    lemma_wrapped(sequence, last - 1);
    assert(list.drop_last() =~= list.take(last));
    let before = start.fed(list.take(last), created);
    lemma_push_piece(before, list[last], created, picture, last == 0, piece(frame, r, last));
    if last == 0 {
        assert(list.take(0) =~= seq![]);
        assert(before == start);
        assert(0 * r == 0);
        assert(frame.take(0) =~= seq![]);
    } else {
        lemma_in_progress(
            start,
            frame,
            picture,
            sequence,
            timestamp,
            extension,
            created,
            list,
            last,
        );
    }
    assert(start.fed(list, created) =~= Assembly {
        timestamp: None,
        next: wrapped(sequence, list.len() as int),
        bytes: seq![],
        created,
        waiting_key: false,
        last_sequence: Some(wrapped(sequence, last)),
    });
}

/// Once the packets of a picture have been given up, the rest of them changes nothing.
proof fn lemma_given_up(
    start: Assembly,
    frame: Seq<u8>,
    picture: Option<u16>,
    sequence: u16,
    timestamp: u32,
    extension: Option<Seq<u8>>,
    created: u64,
    missing: int,
    i: int,
)
    requires
        sendable(frame, picture),
        0 < frame.len() <= MAX_ENCODED,
        start.timestamp != Some(timestamp),
        ({
            let whole = picture_packets(
                payloads(frame, MTU as int, picture),
                sequence,
                timestamp,
                extension,
            );
            0 <= missing < i < whole.len()
        }),
    ensures
        ({
            let whole = picture_packets(
                payloads(frame, MTU as int, picture),
                sequence,
                timestamp,
                extension,
            );
            let list = whole.remove(missing);
            let after = start.fed(list.take(i), created);
            &&& after.timestamp is None
            &&& after.waiting_key
            &&& start.outcome_at(list, created, i - 1) is Nothing
        }),
    decreases i,
{
    let whole = picture_packets(
        payloads(frame, MTU as int, picture),
        sequence,
        timestamp,
        extension,
    );
    let list = whole.remove(missing);
    let r = room(MTU as int, picture);
    lemma_payload_count(frame.len() as int, r);
    lemma_piece(frame, r, i);
    lemma_sendable_piece(frame, picture, i);
    lemma_wrapped(sequence, missing);
    assert(list[i - 1] == whole[i]);
    assert(list.take(i).drop_last() =~= list.take(i - 1));
    lemma_push_piece(
        start.fed(list.take(i - 1), created),
        whole[i],
        created,
        picture,
        false,
        piece(frame, r, i),
    );
    assert(list.take(i).last() == list[i - 1]);
    if i > missing + 1 {
        lemma_given_up(
            start,
            frame,
            picture,
            sequence,
            timestamp,
            extension,
            created,
            missing,
            i - 1,
        );
    } else {
        assert(list.take(i - 1) =~= whole.take(i - 1));
        if missing == 0 {
            assert(list.take(0) =~= seq![]);
        } else {
            lemma_in_progress(
                start,
                frame,
                picture,
                sequence,
                timestamp,
                extension,
                created,
                whole,
                missing,
            );
        }
    }
}

/// A picture of which a packet is missing is not passed on, nor is any part of it; and unless the
/// missing packet is the last, the reassembler then waits for a keyframe.
pub proof fn law_incomplete_picture_is_rejected(
    start: Assembly,
    frame: Seq<u8>,
    picture: Option<u16>,
    sequence: u16,
    timestamp: u32,
    extension: Option<Seq<u8>>,
    created: u64,
    missing: int,
)
    requires
        sendable(frame, picture),
        0 < frame.len() <= MAX_ENCODED,
        start.timestamp != Some(timestamp),
        0 <= missing < payloads(frame, MTU as int, picture).len(),
    ensures
        ({
            let whole = picture_packets(
                payloads(frame, MTU as int, picture),
                sequence,
                timestamp,
                extension,
            );
            let list = whole.remove(missing);
            &&& forall|k: int|
                0 <= k < list.len() ==> (#[trigger] start.outcome_at(list, created, k)) is Nothing
            &&& missing < list.len() ==> start.fed(list, created).waiting_key
        }),
{
    let whole = picture_packets(
        payloads(frame, MTU as int, picture),
        sequence,
        timestamp,
        extension,
    );
    let list = whole.remove(missing);
    assert forall|k: int| 0 <= k < list.len() implies (#[trigger] start.outcome_at(
        list,
        created,
        k,
    )) is Nothing by {
        if k >= missing {
            lemma_given_up(
                start,
                frame,
                picture,
                sequence,
                timestamp,
                extension,
                created,
                missing,
                k + 1,
            );
        } else {
            lemma_in_progress(
                start,
                frame,
                picture,
                sequence,
                timestamp,
                extension,
                created,
                whole,
                missing,
            );
            assert(list.take(k) =~= whole.take(k));
            assert(list[k] == whole[k]);
            assert(start.outcome_at(whole, created, k) is Nothing);
        }
    }
    if missing < list.len() {
        lemma_given_up(
            start,
            frame,
            picture,
            sequence,
            timestamp,
            extension,
            created,
            missing,
            list.len() as int,
        );
        assert(list.take(list.len() as int) =~= list);
    }
}

/// After any packet that does not follow the one before it, only a keyframe is passed on.
pub proof fn law_gap_waits_for_keyframe(start: Assembly, packet: PacketModel, created: u64)
    requires
        start.gap(packet.sequence_number),
    ensures
        start.pushed(packet, created).1 matches Outcome::Complete(frame, _) ==> is_keyframe(frame),
        !(start.pushed(packet, created).1 is Complete) ==> start.pushed(packet, created).0.waiting_key,
{
}

/// The header of a stream of pictures of the given size: the container's and the codec's names,
/// the header's length, the size, and the time base.
pub open spec fn ivf_bytes(width: u32, height: u32) -> Seq<u8> {
    seq![
        0x44,
        0x4b,
        0x49,
        0x46,
        0,
        0,
        32,
        0,
        0x56,
        0x50,
        0x38,
        0x30,
        (width % 256) as u8,
        (width / 256 % 256) as u8,
        (height % 256) as u8,
        (height / 256 % 256) as u8,
        15,
        0,
        0,
        0,
        1,
        0,
        0,
        0,
        0,
        0,
        0,
        0,
        0,
        0,
        0,
        0,
    ]
}

/// Writes the header of a stream of pictures. Sizes are kept to their low sixteen bits.
pub fn ivf_header(width: u32, height: u32) -> (r: [u8; 32])
    ensures
        r@ == ivf_bytes(width, height),
{
    let mut h: [u8; 32] = [0; 32];
    h[0] = 0x44;
    h[1] = 0x4b;
    h[2] = 0x49;
    h[3] = 0x46;
    h[6] = 32;
    h[8] = 0x56;
    h[9] = 0x50;
    h[10] = 0x38;
    h[11] = 0x30;
    h[12] = (width % 256) as u8;
    h[13] = (width / 256 % 256) as u8;
    h[14] = (height % 256) as u8;
    h[15] = (height / 256 % 256) as u8;
    h[16] = 15;
    h[20] = 1;
    assert(h@ =~= ivf_bytes(width, height));
    h
}

/// Whether a stream's header names the container and the codec that are expected.
pub open spec fn is_vp8_stream(header: Seq<u8>) -> bool {
    header.len() >= 12 && header.take(4) == ivf_bytes(0, 0).take(4) && header.subrange(8, 12)
        == ivf_bytes(0, 0).subrange(8, 12)
}

/// Checks the header that the encoder writes before its first picture.
pub fn check_stream(header: &[u8; 32]) -> (r: Result<(), VideoError>)
    ensures
        r == (if is_vp8_stream(header@) {
            Ok(())
        } else {
            Err(VideoError::EncoderOutput)
        }),
{
    let good = header[0] == 0x44 && header[1] == 0x4b && header[2] == 0x49 && header[3] == 0x46
        && header[8] == 0x56 && header[9] == 0x50 && header[10] == 0x38 && header[11] == 0x30;
    let ghost names = ivf_bytes(0, 0);
    if good {
        assert(header@.take(4) =~= names.take(4));
        assert(header@.subrange(8, 12) =~= names.subrange(8, 12));
        Ok(())
    } else {
        proof {
            if is_vp8_stream(header@) {
                assert forall|i: int| 0 <= i < 4 implies #[trigger] header@[i] == names[i] by {
                    assert(header@.take(4)[i] == names.take(4)[i]);
                }
                assert forall|i: int| 8 <= i < 12 implies #[trigger] header@[i] == names[i] by {
                    assert(header@.subrange(8, 12)[i - 8] == names.subrange(8, 12)[i - 8]);
                }
                assert(header@[0] == 0x44 && header@[1] == 0x4b && header@[2] == 0x49 && header@[3]
                    == 0x46);
                assert(header@[8] == 0x56 && header@[9] == 0x50 && header@[10] == 0x38
                    && header@[11] == 0x30);
            }
        }
        Err(VideoError::EncoderOutput)
    }
}

/// The header that is written for the decoder is one that the encoder's reader accepts.
pub proof fn law_own_header_is_accepted(width: u32, height: u32)
    ensures
        is_vp8_stream(ivf_bytes(width, height)),
{
    assert(ivf_bytes(width, height).take(4) =~= ivf_bytes(0, 0).take(4));
    assert(ivf_bytes(width, height).subrange(8, 12) =~= ivf_bytes(0, 0).subrange(8, 12));
}

/// The length that the header of a picture in a stream announces, where it is acceptable.
pub open spec fn announced(header: Seq<u8>) -> Option<nat> {
    let length = packets::little_endian(header.take(4));
    if 0 < length <= MAX_ENCODED {
        Some(length)
    } else {
        None
    }
}

/// Reads the length of the next picture from the twelve bytes before it.
pub fn frame_length(header: &[u8; 12]) -> (r: Result<usize, VideoError>)
    ensures
        match announced(header@) {
            Some(length) => r matches Ok(value) && value == length,
            None => r == Err::<usize, _>(VideoError::FrameLength),
        },
{
    let length: u32 = packets::read_little_endian_32(header.as_slice());
    if 0 < length && length <= 2_097_152 {
        Ok(length as usize)
    } else {
        Err(VideoError::FrameLength)
    }
}

/// What the decoder is to be given for one picture.
#[derive(Debug)]
pub struct Feed {
    /// The decoder that runs now must be stopped first.
    pub restart: bool,
    /// A decoder must be started for pictures of this size, and given the stream's header.
    pub start: Option<(u32, u32)>,
    /// The creation time that goes with the picture.
    pub created: u64,
    /// The picture with its header in the stream.
    pub record: Vec<u8>,
    /// The length of the picture itself.
    pub length: usize,
}

/// A picture with its header in the stream: its length, its number and its bytes.
pub open spec fn stream_record(number: u64, data: Seq<u8>) -> Seq<u8> {
    packets::little_endian_bytes(data.len(), 4) + packets::little_endian_bytes(number as nat, 8)
        + data
}

/// The state of the decoding side, apart from the pieces of the next picture.
pub struct DecoderModel {
    pub dimensions: Option<(u32, u32)>,
    pub running: bool,
    pub number: u64,
}

impl DecoderModel {
    /// Whether a picture has another size than the decoder was started for.
    pub open spec fn resized(self, data: Seq<u8>) -> bool {
        self.dimensions is Some && frame_size(data) is Some && self.dimensions != frame_size(data)
    }

    /// Whether the decoder that runs now can take a picture.
    pub open spec fn continues(self, data: Seq<u8>) -> bool {
        self.running && !self.resized(data)
    }

    /// The number that a picture gets: a new stream starts at zero.
    pub open spec fn number_of(self, data: Seq<u8>) -> u64 {
        if self.resized(data) {
            0
        } else {
            self.number
        }
    }

    /// Whether a picture goes to a decoder: to the running one, or to a new one that only a
    /// keyframe can start.
    pub open spec fn feeds(self, data: Seq<u8>) -> bool {
        self.continues(data) || is_keyframe(data)
    }

    /// The state after a picture.
    pub open spec fn after(self, data: Seq<u8>) -> DecoderModel {
        DecoderModel {
            dimensions: if is_keyframe(data) {
                frame_size(data)
            } else {
                self.dimensions
            },
            running: self.feeds(data),
            number: if self.feeds(data) {
                (self.number_of(data) + 1) as u64
            } else {
                self.number
            },
        }
    }
}

/// The receiving side of a video stream.
pub struct VideoReceiver {
    pub reassembler: Reassembler,
    pub dimensions: Option<(u32, u32)>,
    pub running: bool,
    pub number: u64,
}

impl VideoReceiver {
    /// The state of the decoding side.
    pub open spec fn decoder(self) -> DecoderModel {
        DecoderModel {
            dimensions: self.dimensions,
            running: self.running,
            number: self.number,
        }
    }

    /// A receiver that waits for its first keyframe, with no decoder running.
    pub fn new() -> (r: Self)
        ensures
            r.reassembler.wf(),
            r.reassembler@ == Assembly::fresh(true),
            r.decoder() == (DecoderModel { dimensions: None, running: false, number: 0 }),
    {
        VideoReceiver {
            reassembler: Reassembler::new(true),
            dimensions: None,
            running: false,
            number: 0,
        }
    }

    /// Takes the next packet in, and says what the decoder is to be given.
    pub fn push(&mut self, packet: &RtpPacket) -> (r: Result<Option<Feed>, VideoError>)
        requires
            old(self).reassembler.wf(),
            old(self).number < u64::MAX,
        ensures
            final(self).reassembler.wf(),
            ({
                let created = packets::created_at(packet@);
                let (assembly, outcome) = old(self).reassembler@.pushed(packet@, created);
                let decoder = old(self).decoder();
                &&& final(self).reassembler@ == assembly
                &&& match outcome {
                    Outcome::Short => r == Err::<Option<Feed>, _>(VideoError::ShortPacket)
                        && final(self).decoder() == decoder,
                    Outcome::TooLarge => r == Err::<Option<Feed>, _>(VideoError::FrameTooLarge)
                        && final(self).decoder() == decoder,
                    Outcome::Nothing => r matches Ok(None) && final(self).decoder() == decoder,
                    Outcome::Complete(data, made) => {
                        &&& final(self).decoder() == decoder.after(data)
                        &&& match r {
                            Ok(Some(feed)) => {
                                &&& decoder.feeds(data)
                                &&& feed.restart == decoder.resized(data)
                                &&& feed.start == (if decoder.continues(data) {
                                    None
                                } else {
                                    frame_size(data)
                                })
                                &&& feed.created == made
                                &&& feed.record@ == stream_record(decoder.number_of(data), data)
                                &&& feed.length == data.len()
                            },
                            Ok(None) => !decoder.feeds(data),
                            Err(_) => false,
                        }
                    },
                }
            }),
    {
        let created: u64 = packets::created_of(packet);
        let mut frame = match self.reassembler.push(packet, created) {
            Err(error) => {
                return Err(error);
            },
            Ok(None) => {
                return Ok(None);
            },
            Ok(Some(frame)) => frame,
        };
        let size = keyframe_size(frame.data.as_slice());
        let mut restart = false;
        if let Some((width, height)) = size {
            if let Some((old_width, old_height)) = self.dimensions {
                if width != old_width || height != old_height {
                    restart = true;
                    self.running = false;
                    self.number = 0;
                }
            }
            self.dimensions = size;
        }
        let mut start: Option<(u32, u32)> = None;
        if !self.running {
            if size.is_none() {
                return Ok(None);
            }
            start = size;
            self.running = true;
        }
        let length: usize = frame.data.len();
        let mut record: Vec<u8> = Vec::new();
        packets::push_little_endian(&mut record, length as u64, 4);
        packets::push_little_endian(&mut record, self.number, 8);
        let ghost data = frame.data@;
        record.append(&mut frame.data);
        assert(record@ =~= stream_record(self.number, data));
        self.number = self.number + 1;
        Ok(Some(Feed { restart, start, created: frame.created, record, length }))
    }
}

/// Every packet of a picture that is sent with its creation time gives that time to the receiver.
pub proof fn law_creation_time_travels(
    parts: Seq<Seq<u8>>,
    sequence: u16,
    timestamp: u32,
    created: u64,
    i: int,
)
    requires
        0 <= i < parts.len(),
    ensures
        packets::created_at(
            picture_packets(parts, sequence, timestamp, stamp_extension(created, true))[i],
        ) == created,
{
    packets::law_stamp_round_trip(created);
}

impl Assembly {
    /// The state of a reassembler that has seen nothing.
    pub open spec fn fresh(waiting_key: bool) -> Assembly {
        Assembly {
            timestamp: None,
            next: 0,
            bytes: seq![],
            created: 0,
            waiting_key,
            last_sequence: None,
        }
    }

    /// The state after a list of packets, each with its creation time.
    pub open spec fn run(self, list: Seq<(PacketModel, u64)>) -> Assembly
        decreases list.len(),
    {
        if list.len() == 0 {
            self
        } else {
            self.run(list.drop_last()).pushed(list.last().0, list.last().1).0
        }
    }

    /// What comes of one packet of a list, each with its creation time.
    pub open spec fn outcome_of(self, list: Seq<(PacketModel, u64)>, i: int) -> Outcome {
        self.run(list.take(i)).pushed(list[i].0, list[i].1).1
    }

    /// Whether none of the first packets of a list was refused.
    pub open spec fn accepted(self, list: Seq<(PacketModel, u64)>, count: int) -> bool {
        forall|k: int|
            0 <= k < count ==> !((#[trigger] self.outcome_of(list, k)) is Short)
                && !(self.outcome_of(list, k) is TooLarge)
    }
}

/// The part of a picture that a packet holds.
pub open spec fn content(packet: PacketModel) -> Seq<u8> {
    packet.payload.skip(descriptor_length(packet.payload))
}

/// The parts of a picture in consecutive packets, one after the other.
pub open spec fn contents_of(list: Seq<(PacketModel, u64)>, first: int, end: int) -> Seq<u8>
    decreases end - first,
{
    if end <= first {
        seq![]
    } else {
        contents_of(list, first, end - 1) + content(list[end - 1].0)
    }
}

/// Whether the packets from one place of a list to another are a stretch of one picture from its
/// beginning on: they can be read, have one timestamp and consecutive numbers, and the first of
/// them starts the first partition of a picture.
pub open spec fn is_stretch(list: Seq<(PacketModel, u64)>, first: int, end: int) -> bool {
    &&& 0 <= first < end <= list.len()
    &&& list[first].0.payload[0] / 16 % 2 == 1
    &&& list[first].0.payload[0] % 8 == 0
    &&& forall|k: int|
        first <= k < end ==> readable((#[trigger] list[k]).0.payload) && list[k].0.timestamp
            == list[first].0.timestamp && list[k].0.sequence_number == wrapped(
            list[first].0.sequence_number,
            k - first,
        )
}

/// Whether a packet of a list does not have the number after that of the packet before it.
pub open spec fn is_break(list: Seq<(PacketModel, u64)>, i: int) -> bool {
    0 < i < list.len() && list[i].0.sequence_number != wrapped(list[i - 1].0.sequence_number, 1)
}

/// What a reassembler holds of a picture is a stretch of it, up to the last packet that came.
spec fn holds_stretch(state: Assembly, list: Seq<(PacketModel, u64)>, first: int) -> bool {
    &&& is_stretch(list, first, list.len() as int)
    &&& state.timestamp == Some(list[first].0.timestamp)
    &&& state.next == wrapped(list[first].0.sequence_number, list.len() - first)
    &&& state.bytes == contents_of(list, first, list.len() as int)
    &&& state.created == list[first].1
}

spec fn follows(state: Assembly, list: Seq<(PacketModel, u64)>) -> bool {
    &&& state.bytes.len() <= MAX_ENCODED
    &&& state.timestamp is Some ==> exists|first: int| holds_stretch(state, list, first)
}

/// What stands behind the end does not count.
proof fn lemma_contents_front(list: Seq<(PacketModel, u64)>, first: int, end: int)
    requires
        0 <= first,
        end < list.len(),
    ensures
        contents_of(list.drop_last(), first, end) == contents_of(list, first, end),
    decreases end - first,
{
    if first < end {
        lemma_contents_front(list, first, end - 1);
        assert(list.drop_last()[end - 1] == list[end - 1]);
    }
}

/// One packet more: the stretch that is held, and the one that a picture is made of.
proof fn lemma_follows_next(before: Assembly, list: Seq<(PacketModel, u64)>)
    requires
        list.len() > 0,
        follows(before, list.drop_last()),
    ensures
        ({
            let (after, outcome) = before.pushed(list.last().0, list.last().1);
            &&& !(outcome is Short) && !(outcome is TooLarge) ==> follows(after, list)
            &&& outcome matches Outcome::Complete(data, created) ==> {
                &&& data.len() <= MAX_ENCODED
                &&& list.last().0.marker
                &&& exists|first: int| #[trigger]
                    is_stretch(list, first, list.len() as int) && data == contents_of(
                        list,
                        first,
                        list.len() as int,
                    ) && created == list[first].1
            }
        }),
{
    let front = list.drop_last();
    let packet = list.last().0;
    let made = list.last().1;
    let last = list.len() - 1;
    let end = list.len() as int;
    let (after, outcome) = before.pushed(packet, made);
    if readable(packet.payload) {
        let starts = packet.payload[0] / 16 % 2 == 1 && packet.payload[0] % 8 == 0;
        let begun = before.noted(packet).begun(packet, made);
        let matching = begun.timestamp == Some(packet.timestamp) && packet.sequence_number
            == begun.next;
        if matching {
            let first = if starts {
                last
            } else {
                choose|first: int| holds_stretch(before, front, first)
            };
            lemma_wrapped(packet.sequence_number, 0);
            if starts {
                assert(is_stretch(list, first, end));
                assert(contents_of(list, first, last) =~= seq![]);
            } else {
                assert(holds_stretch(before, front, first));
                lemma_contents_front(list, first, last);
                assert(front[first] == list[first]);
                lemma_wrapped(list[first].0.sequence_number, last - first);
                assert forall|k: int| first <= k < end implies readable(
                    (#[trigger] list[k]).0.payload,
                ) && list[k].0.timestamp == list[first].0.timestamp && list[k].0.sequence_number
                    == wrapped(list[first].0.sequence_number, k - first) by {
                    if k < last {
                        assert(front[k] == list[k]);
                    }
                }
                assert(is_stretch(list, first, end));
            }
            assert(begun.bytes + content(packet) == contents_of(list, first, end));
            assert(begun.created == list[first].1);
            lemma_wrapped(list[first].0.sequence_number, last - first);
            if after.timestamp is Some {
                assert(holds_stretch(after, list, first) || outcome is TooLarge);
            }
        }
    }
}

/// What a reassembler that was given a list of packets, none of them refused, holds of a picture.
proof fn lemma_follows(waiting_key: bool, list: Seq<(PacketModel, u64)>)
    requires
        Assembly::fresh(waiting_key).accepted(list, list.len() as int),
    ensures
        follows(Assembly::fresh(waiting_key).run(list), list),
    decreases list.len(),
{
    let start = Assembly::fresh(waiting_key);
    if list.len() > 0 {
        let front = list.drop_last();
        lemma_accepted_front(start, list);
        lemma_follows(waiting_key, front);
        lemma_follows_next(start.run(front), list);
        assert(list.take(list.len() - 1) =~= front);
        assert(!(start.outcome_of(list, list.len() - 1) is Short));
    }
}

proof fn lemma_accepted_front(start: Assembly, list: Seq<(PacketModel, u64)>)
    requires
        list.len() > 0,
        start.accepted(list, list.len() - 1),
    ensures
        start.accepted(list.drop_last(), list.len() - 1),
{
    let front = list.drop_last();
    assert forall|k: int| 0 <= k < list.len() - 1 implies !((#[trigger] start.outcome_of(
        front,
        k,
    )) is Short) && !(start.outcome_of(front, k) is TooLarge) by {
        assert(front.take(k) =~= list.take(k));
        assert(front[k] == list[k]);
        assert(start.outcome_of(list, k) == start.outcome_of(front, k));
    }
}

/// The last number that was seen is that of the last packet.
proof fn lemma_last_sequence(start: Assembly, list: Seq<(PacketModel, u64)>)
    requires
        list.len() > 0,
    ensures
        start.run(list).last_sequence == Some(list.last().0.sequence_number),
{
}

/// From a break on, until a picture is complete, the reassembler waits for a keyframe.
proof fn lemma_waits(start: Assembly, list: Seq<(PacketModel, u64)>, broken: int)
    requires
        is_break(list, broken),
        forall|k: int|
            broken <= k < list.len() ==> !((#[trigger] start.outcome_of(list, k)) is Complete),
    ensures
        start.run(list).waiting_key,
    decreases list.len(),
{
    let front = list.drop_last();
    let last = list.len() - 1;
    assert(list.take(last) =~= front);
    assert(!(start.outcome_of(list, last) is Complete));
    if broken == last {
        lemma_last_sequence(start, front);
        assert(front.last() == list[last - 1]);
    } else {
        assert forall|k: int| broken <= k < front.len() implies !((#[trigger] start.outcome_of(
            front,
            k,
        )) is Complete) by {
            assert(front.take(k) =~= list.take(k));
            assert(!(start.outcome_of(list, k) is Complete));
        }
        assert(front[broken] == list[broken] && front[broken - 1] == list[broken - 1]);
        lemma_waits(start, front, broken);
    }
}

/// Whatever packets come, a picture that a new reassembler passes on is what consecutive packets of
/// one timestamp hold, from one that starts a picture to the last one, which is marked. Its creation
/// time is that of the first of them, and it is not longer than a picture may be. If since the
/// picture before it a packet did not follow the one before, it is a keyframe.
pub proof fn law_pictures_are_whole(waiting_key: bool, list: Seq<(PacketModel, u64)>)
    requires
        list.len() > 0,
        Assembly::fresh(waiting_key).accepted(list, list.len() - 1),
    ensures
        Assembly::fresh(waiting_key).outcome_of(list, list.len() - 1) matches Outcome::Complete(
            data,
            created,
        ) ==> {
            &&& data.len() <= MAX_ENCODED
            &&& list.last().0.marker
            &&& exists|first: int| #[trigger]
                is_stretch(list, first, list.len() as int) && data == contents_of(
                    list,
                    first,
                    list.len() as int,
                ) && created == list[first].1
            &&& forall|broken: int| #[trigger]
                is_break(list, broken) && (forall|k: int|
                    broken <= k < list.len() - 1 ==> !((
                    #[trigger] Assembly::fresh(waiting_key).outcome_of(list, k)) is Complete))
                    ==> is_keyframe(data)
        },
{
    let start = Assembly::fresh(waiting_key);
    let front = list.drop_last();
    let last = list.len() - 1;
    assert(list.take(last) =~= front);
    lemma_accepted_front(start, list);
    lemma_follows(waiting_key, front);
    lemma_follows_next(start.run(front), list);
    if let Outcome::Complete(data, created) = start.outcome_of(list, last) {
        assert forall|broken: int| #[trigger]
            is_break(list, broken) && (forall|k: int|
                broken <= k < last ==> !((#[trigger] start.outcome_of(list, k)) is Complete))
            implies is_keyframe(data) by {
            if broken == last {
                lemma_last_sequence(start, front);
                assert(front.last() == list[last - 1]);
            } else {
                assert forall|k: int| broken <= k < front.len() implies !((
                #[trigger] start.outcome_of(front, k)) is Complete) by {
                    assert(front.take(k) =~= list.take(k));
                    assert(!(start.outcome_of(list, k) is Complete));
                }
                assert(front[broken] == list[broken] && front[broken - 1] == list[broken - 1]);
                lemma_waits(start, front, broken);
            }
        }
    }
}

/// The size that the last keyframe among the first pictures states; none where there is no keyframe
/// among them.
pub open spec fn last_size(pictures: Seq<Seq<u8>>, count: int) -> Option<(u32, u32)>
    decreases count,
{
    if count <= 0 {
        None
    } else if frame_size(pictures[count - 1]) is Some {
        frame_size(pictures[count - 1])
    } else {
        last_size(pictures, count - 1)
    }
}

impl DecoderModel {
    /// The state after a list of pictures.
    pub open spec fn after_all(self, pictures: Seq<Seq<u8>>) -> DecoderModel
        decreases pictures.len(),
    {
        if pictures.len() == 0 {
            self
        } else {
            self.after_all(pictures.drop_last()).after(pictures.last())
        }
    }
}

/// The state of the decoding side before one of the pictures that come to a new receiver.
pub open spec fn decoder_before(pictures: Seq<Seq<u8>>, i: int) -> DecoderModel {
    (DecoderModel { dimensions: None, running: false, number: 0 }).after_all(pictures.take(i))
}

/// What the decoding side knows of the pictures that came.
proof fn lemma_decoder_before(pictures: Seq<Seq<u8>>, i: int)
    requires
        0 <= i <= pictures.len() <= u64::MAX,
    ensures
        ({
            let decoder = decoder_before(pictures, i);
            &&& decoder.dimensions == last_size(pictures, i)
            &&& decoder.running <==> last_size(pictures, i) is Some
            &&& decoder.number <= i
            &&& !decoder.running ==> decoder.number == 0
        }),
    decreases i,
{
    if i > 0 {
        lemma_decoder_before(pictures, i - 1);
        assert(pictures.take(i).drop_last() =~= pictures.take(i - 1));
        assert(pictures.take(i).last() == pictures[i - 1]);
    }
}

/// Of the pictures that come to a new receiver, in any number and of any kind, those go to a decoder
/// that are a keyframe or have one before them. The decoder is stopped exactly at a keyframe that
/// states another size than the keyframe before it. For every other picture a decoder that runs is
/// kept, and the picture's number is one more than that of the picture before; a decoder that is
/// started, at the first keyframe or in place of a stopped one, begins to count at zero.
pub proof fn law_decoder_is_kept_while_size_stays(pictures: Seq<Seq<u8>>, i: int)
    requires
        0 <= i < pictures.len() < u64::MAX,
    ensures
        ({
            let data = pictures[i];
            let decoder = decoder_before(pictures, i);
            let earlier = last_size(pictures, i);
            let stated = frame_size(data);
            let other_size = stated is Some && earlier is Some && stated != earlier;
            &&& decoder.feeds(data) <==> stated is Some || earlier is Some
            &&& decoder.resized(data) <==> other_size
            &&& decoder.continues(data) <==> earlier is Some && !other_size
            &&& decoder.continues(data) ==> i > 0 && decoder.number_of(data) == decoder_before(
                pictures,
                i - 1,
            ).number_of(pictures[i - 1]) + 1
            &&& !decoder.continues(data) ==> decoder.number_of(data) == 0
        }),
{
    lemma_decoder_before(pictures, i);
    if i > 0 {
        lemma_decoder_before(pictures, i - 1);
        assert(pictures.take(i).drop_last() =~= pictures.take(i - 1));
        assert(pictures.take(i).last() == pictures[i - 1]);
    }
}

/// A keyframe whose bytes state a size, whatever scaling they ask for, is read as one of that size if
/// the size is at most 1280 by 720; and whatever is read as a keyframe states such a size.
pub proof fn law_keyframe_size_is_read(
    frame: Seq<u8>,
    width: nat,
    height: nat,
    across: nat,
    down: nat,
)
    requires
        frame.len() >= 10,
        width < 0x4000,
        height < 0x4000,
        across < 4,
        down < 4,
        frame.subrange(6, 8) == packets::little_endian_bytes(width + 0x4000 * across, 2),
        frame.subrange(8, 10) == packets::little_endian_bytes(height + 0x4000 * down, 2),
    ensures
        frame_size(frame) is Some <==> {
            &&& frame[0] % 2 == 0
            &&& frame.subrange(3, 6) == seq![0x9du8, 0x01u8, 0x2au8]
            &&& 1 <= width <= 1280
            &&& 1 <= height <= 720
        },
        frame_size(frame) is Some ==> frame_size(frame) == Some((width as u32, height as u32)),
{
    reveal_with_fuel(packets::little_endian_bytes, 3);
    let w = width + 0x4000 * across;
    let h = height + 0x4000 * down;
    assert(frame.subrange(6, 8)[0] == frame[6] && frame.subrange(6, 8)[1] == frame[7]);
    assert(frame.subrange(8, 10)[0] == frame[8] && frame.subrange(8, 10)[1] == frame[9]);
    assert(frame[6] == (w % 256) as u8 && frame[7] == (w / 256 % 256) as u8);
    assert(frame[8] == (h % 256) as u8 && frame[9] == (h / 256 % 256) as u8);
    let code = frame.subrange(3, 6);
    assert(code[0] == frame[3] && code[1] == frame[4] && code[2] == frame[5]);
    if frame[3] == 0x9d && frame[4] == 0x01 && frame[5] == 0x2a {
        assert(code =~= seq![0x9du8, 0x01u8, 0x2au8]);
    }
}

/// What is shorter than a keyframe's header is not a keyframe.
pub proof fn law_short_picture_is_no_keyframe(frame: Seq<u8>)
    requires
        frame.len() < 10,
    ensures
        !is_keyframe(frame),
{
}

/// What a decoder is given for a picture can be taken apart again: the length that the encoder's
/// reader would read, the picture's number, and the picture.
pub proof fn law_stream_record_round_trip(number: u64, data: Seq<u8>)
    requires
        0 < data.len() <= 2 * 1024 * 1024,
    ensures
        stream_record(number, data).len() == 12 + data.len(),
        announced(stream_record(number, data).take(12)) == Some(data.len()),
        packets::little_endian(stream_record(number, data).subrange(4, 12)) == number,
        stream_record(number, data).skip(12) == data,
{
    let record = stream_record(number, data);
    assert(vstd::arithmetic::power::pow(256, 4) == 0x1_0000_0000 && vstd::arithmetic::power::pow(
        256,
        8,
    ) == 0x1_0000_0000_0000_0000) by {
        reveal_with_fuel(vstd::arithmetic::power::pow, 9);
    }
    packets::lemma_little_endian_of_bytes(data.len(), 4);
    packets::lemma_little_endian_of_bytes(number as nat, 8);
    assert(record.take(12).take(4) =~= packets::little_endian_bytes(data.len(), 4));
    assert(record.subrange(4, 12) =~= packets::little_endian_bytes(number as nat, 8));
    assert(record.skip(12) =~= data);
}

/// A length is accepted exactly from one byte to two mebibytes.
pub proof fn law_announced_lengths(header: Seq<u8>)
    ensures
        announced(header) is Some <==> 1 <= packets::little_endian(header.take(4)) <= 2 * 1024
            * 1024,
{
}

/// No payload of a picture is longer than asked for, and each but the last has exactly that length.
pub proof fn law_payloads_fit(frame: Seq<u8>, mtu: int, picture: Option<u16>, i: int)
    requires
        mtu > 4,
        0 <= i < payloads(frame, mtu, picture).len(),
    ensures
        payloads(frame, mtu, picture)[i].len() <= mtu,
        i + 1 < payloads(frame, mtu, picture).len() ==> payloads(frame, mtu, picture)[i].len()
            == mtu,
{
    let r = room(mtu, picture);
    lemma_payload_count(frame.len() as int, r);
    lemma_piece(frame, r, i);
    lemma_piece_length(frame, r, i);
}

proof fn lemma_piece_length(frame: Seq<u8>, room: int, i: int)
    requires
        room > 0,
        0 <= i < payload_count(frame.len() as int, room),
    ensures
        piece(frame, room, i).len() <= room,
{
    lemma_piece(frame, room, i);
    reveal(piece);
    assert((i + 1) * room == i * room + room) by (nonlinear_arith);
}

/// What is given to a running picture beyond two mebibytes is refused, and nothing up to that is.
pub proof fn law_oversized_pictures_are_refused(
    state: Assembly,
    packet: PacketModel,
    created: u64,
)
    requires
        readable(packet.payload),
        packet.payload[0] / 16 % 2 == 0,
        state.timestamp == Some(packet.timestamp),
        state.next == packet.sequence_number,
    ensures
        state.pushed(packet, created).1 is TooLarge <==> state.bytes.len() + content(packet).len()
            > 2 * 1024 * 1024,
{
}

/// A packet that is not the next of the picture that is being received, and starts none, gives the
/// picture up.
pub proof fn law_stray_packet_gives_picture_up(
    state: Assembly,
    packet: PacketModel,
    created: u64,
)
    requires
        readable(packet.payload),
        packet.payload[0] / 16 % 2 == 0 || packet.payload[0] % 8 != 0,
        state.timestamp != Some(packet.timestamp) || state.next != packet.sequence_number,
    ensures
        state.pushed(packet, created).1 is Nothing,
        state.pushed(packet, created).0.timestamp is None,
        state.pushed(packet, created).0.waiting_key,
{
}

/// No packet of a picture has a payload of more than a thousand bytes.
pub proof fn law_packets_are_short(
    frame: Seq<u8>,
    picture: Option<u16>,
    sequence: u16,
    timestamp: u32,
    extension: Option<Seq<u8>>,
    i: int,
)
    requires
        0 <= i < payloads(frame, MTU as int, picture).len(),
    ensures
        ({
            let packets = picture_packets(
                payloads(frame, MTU as int, picture),
                sequence,
                timestamp,
                extension,
            );
            &&& packets.len() == payloads(frame, MTU as int, picture).len()
            &&& packets[i].payload.len() <= 1000
            &&& packets[i].marker <==> i == packets.len() - 1
            &&& packets[i].timestamp == timestamp
            &&& packets[i].sequence_number == (sequence + i) % 65536
            &&& packets[i].extension == extension
        }),
{
    law_payloads_fit(frame, MTU as int, picture, i);
    reveal(wrapped);
}

/// The header of a stream says that it is one of VP8 pictures, how long it is itself, and the size of the
/// pictures.
pub proof fn law_header_states_size(width: u32, height: u32)
    requires
        width < 65536,
        height < 65536,
    ensures
        ({
            let header = ivf_bytes(width, height);
            &&& header.len() == 32
            &&& header.take(4) == seq![0x44u8, 0x4bu8, 0x49u8, 0x46u8]
            &&& header.subrange(8, 12) == seq![0x56u8, 0x50u8, 0x38u8, 0x30u8]
            &&& packets::little_endian(header.subrange(6, 8)) == header.len()
            &&& packets::little_endian(header.subrange(12, 14)) == width
            &&& packets::little_endian(header.subrange(14, 16)) == height
            &&& is_vp8_stream(header)
        }),
{
    let header = ivf_bytes(width, height);
    law_own_header_is_accepted(width, height);
    assert(header.take(4) =~= seq![0x44u8, 0x4bu8, 0x49u8, 0x46u8]);
    assert(header.subrange(8, 12) =~= seq![0x56u8, 0x50u8, 0x38u8, 0x30u8]);
    lemma_two_bytes(header, 6);
    lemma_two_bytes(header, 12);
    lemma_two_bytes(header, 14);
}

proof fn lemma_two_bytes(bytes: Seq<u8>, at: int)
    requires
        0 <= at,
        at + 2 <= bytes.len(),
    ensures
        packets::little_endian(bytes.subrange(at, at + 2)) == bytes[at] + 256 * bytes[at + 1],
{
    let part = bytes.subrange(at, at + 2);
    assert(part.drop_first().drop_first() =~= seq![]);
    reveal_with_fuel(packets::little_endian, 3);
}

/// A stream is accepted exactly if it begins with the four letters of the container, and has those of the
/// codec from the ninth byte on.
pub proof fn law_which_streams_are_accepted(header: Seq<u8>)
    requires
        header.len() >= 12,
    ensures
        is_vp8_stream(header) <==> header.take(4) == seq![0x44u8, 0x4bu8, 0x49u8, 0x46u8]
            && header.subrange(8, 12) == seq![0x56u8, 0x50u8, 0x38u8, 0x30u8],
{
    let own = ivf_bytes(0, 0);
    assert(own.take(4) =~= seq![0x44u8, 0x4bu8, 0x49u8, 0x46u8]);
    assert(own.subrange(8, 12) =~= seq![0x56u8, 0x50u8, 0x38u8, 0x30u8]);
}

} // verus!
