//! Media packets as plain values, and the creation time that rides on them.
use crate::text;
use vstd::prelude::*;

verus! {

/// A media packet: the header fields that this project sets or reads, the bytes of the timing
/// extension where the packet carries one, and the payload.
#[derive(Clone, Debug)]
pub struct RtpPacket {
    pub sequence_number: u16,
    pub timestamp: u32,
    pub marker: bool,
    pub extension: Option<Vec<u8>>,
    pub payload: Vec<u8>,
}

/// The contents of a packet.
#[verifier::ext_equal]
pub struct PacketModel {
    pub sequence_number: u16,
    pub timestamp: u32,
    pub marker: bool,
    pub extension: Option<Seq<u8>>,
    pub payload: Seq<u8>,
}

impl View for RtpPacket {
    type V = PacketModel;

    open spec fn view(&self) -> PacketModel {
        PacketModel {
            sequence_number: self.sequence_number,
            timestamp: self.timestamp,
            marker: self.marker,
            extension: match self.extension {
                Some(bytes) => Some(bytes@),
                None => None,
            },
            payload: self.payload@,
        }
    }
}

/// The number that bytes stand for, most significant first.
pub open spec fn big_endian(bytes: Seq<u8>) -> nat
    decreases bytes.len(),
{
    if bytes.len() == 0 {
        0
    } else {
        big_endian(bytes.drop_last()) * 256 + bytes.last() as nat
    }
}

/// The number that bytes stand for, least significant first.
pub open spec fn little_endian(bytes: Seq<u8>) -> nat
    decreases bytes.len(),
{
    if bytes.len() == 0 {
        0
    } else {
        bytes[0] as nat + 256 * little_endian(bytes.drop_first())
    }
}

/// The last bytes of a number, most significant first.
pub open spec fn big_endian_bytes(value: nat, length: nat) -> Seq<u8>
    decreases length,
{
    if length == 0 {
        seq![]
    } else {
        big_endian_bytes(value / 256, (length - 1) as nat).push((value % 256) as u8)
    }
}

/// The first bytes of a number, least significant first.
pub open spec fn little_endian_bytes(value: nat, length: nat) -> Seq<u8>
    decreases length,
{
    if length == 0 {
        seq![]
    } else {
        seq![(value % 256) as u8] + little_endian_bytes(value / 256, (length - 1) as nat)
    }
}

/// The creation time in a timing extension: eight bytes, most significant first.
pub open spec fn stamp(extension: Option<Seq<u8>>) -> Option<u64> {
    match extension {
        Some(bytes) if bytes.len() == 8 => Some(big_endian(bytes) as u64),
        _ => None,
    }
}

/// Eight bytes make a 64 bit number.
proof fn lemma_big_endian_bound(bytes: Seq<u8>, length: nat)
    requires
        bytes.len() == length <= 8,
    ensures
        length == 0 ==> big_endian(bytes) == 0,
        length == 1 ==> big_endian(bytes) < 0x100,
        length == 2 ==> big_endian(bytes) < 0x1_0000,
        length == 3 ==> big_endian(bytes) < 0x100_0000,
        length == 4 ==> big_endian(bytes) < 0x1_0000_0000,
        length == 5 ==> big_endian(bytes) < 0x100_0000_0000,
        length == 6 ==> big_endian(bytes) < 0x1_0000_0000_0000,
        length == 7 ==> big_endian(bytes) < 0x100_0000_0000_0000,
        length == 8 ==> big_endian(bytes) < 0x1_0000_0000_0000_0000,
    decreases length,
{
    if length > 0 {
        lemma_big_endian_bound(bytes.drop_last(), (length - 1) as nat);
    }
}

/// Reads the creation time of a packet, if its extension holds one.
pub fn read_stamp(extension: &Option<Vec<u8>>) -> (r: Option<u64>)
    ensures
        r == stamp(
            match *extension {
                Some(bytes) => Some(bytes@),
                None => None,
            },
        ),
{
    match extension {
        Some(bytes) => {
            if bytes.len() != 8 {
                return None;
            }
            let mut value: u64 = 0;
            let mut i: usize = 0;
            while i < 8
                invariant
                    i <= 8,
                    bytes.len() == 8,
                    value == big_endian(bytes@.take(i as int)),
                decreases 8 - i,
            {
                proof {
                    assert(bytes@.take(i + 1).drop_last() =~= bytes@.take(i as int));
                    lemma_big_endian_bound(bytes@.take(i + 1), (i + 1) as nat);
                }
                value = value * 256 + bytes[i] as u64;
                i += 1;
            }
            assert(bytes@.take(8) =~= bytes@);
            Some(value)
        },
        None => None,
    }
}

/// The creation time that a packet carries, and zero where it carries none.
pub open spec fn created_at(packet: PacketModel) -> u64 {
    match stamp(packet.extension) {
        Some(created) => created,
        None => 0,
    }
}

/// Reads the creation time of a packet, zero where it carries none.
pub fn created_of(packet: &RtpPacket) -> (r: u64)
    ensures
        r == created_at(packet@),
{
    match read_stamp(&packet.extension) {
        Some(created) => created,
        None => 0,
    }
}

/// The bytes of a timing extension.
pub fn write_stamp(created: u64) -> (bytes: Vec<u8>)
    ensures
        bytes@ == big_endian_bytes(created as nat, 8),
{
    big_endian_prefix(created, 8)
}

fn big_endian_prefix(value: u64, length: usize) -> (bytes: Vec<u8>)
    ensures
        bytes@ == big_endian_bytes(value as nat, length as nat),
    decreases length,
{
    if length == 0 {
        let bytes: Vec<u8> = Vec::new();
        assert(bytes@ =~= seq![]);
        return bytes;
    }
    let mut bytes = big_endian_prefix(value / 256, length - 1);
    bytes.push((value % 256) as u8);
    bytes
}

/// Appends a number to a list of bytes, least significant byte first.
pub fn push_little_endian(bytes: &mut Vec<u8>, value: u64, length: usize)
    ensures
        final(bytes)@ == old(bytes)@ + little_endian_bytes(value as nat, length as nat),
{
    let mut rest: u64 = value;
    let mut left: usize = length;
    assert(bytes@ + little_endian_bytes(rest as nat, left as nat) =~= old(bytes)@
        + little_endian_bytes(value as nat, length as nat));
    while left > 0
        invariant
            left <= length,
            bytes@ + little_endian_bytes(rest as nat, left as nat) == old(bytes)@
                + little_endian_bytes(value as nat, length as nat),
        decreases left,
    {
        let ghost then = bytes@;
        bytes.push((rest % 256) as u8);
        assert(bytes@ + little_endian_bytes(rest as nat / 256, (left - 1) as nat) =~= then
            + little_endian_bytes(rest as nat, left as nat));
        rest = rest / 256;
        left -= 1;
    }
    assert(bytes@ + little_endian_bytes(rest as nat, 0) =~= bytes@);
}

/// Reads a number of four bytes, least significant first.
pub fn read_little_endian_32(bytes: &[u8]) -> (value: u32)
    requires
        bytes.len() >= 4,
    ensures
        value == little_endian(bytes@.take(4)),
{
    proof {
        let all = bytes@.take(4);
        reveal_with_fuel(little_endian, 5);
        assert(all.drop_first().drop_first().drop_first().drop_first() =~= seq![]);
    }
    bytes[0] as u32 + 0x100 * (bytes[1] as u32) + 0x1_0000 * (bytes[2] as u32) + 0x100_0000 * (
    bytes[3] as u32)
}

/// The position of the first header extension with the given name.
pub open spec fn is_first(extensions: Seq<(String, i64)>, uri: Seq<char>, i: int) -> bool {
    &&& 0 <= i < extensions.len()
    &&& extensions[i].0@ == uri
    &&& forall|k: int| 0 <= k < i ==> (#[trigger] extensions[k]).0@ != uri
}

/// The number under which a header extension was negotiated, kept to its low byte.
pub fn find_extension(extensions: &Vec<(String, i64)>, uri: &str) -> (r: Option<u8>)
    ensures
        match r {
            Some(id) => exists|i: int|
                #[trigger] is_first(extensions@, uri@, i) && id == extensions@[i].1 % 256,
            None => forall|i: int|
                0 <= i < extensions@.len() ==> (#[trigger] extensions@[i]).0@ != uri@,
        },
{
    let mut i: usize = 0;
    while i < extensions.len()
        invariant
            i <= extensions@.len(),
            forall|k: int| 0 <= k < i ==> (#[trigger] extensions@[k]).0@ != uri@,
        decreases extensions@.len() - i,
    {
        if text::same_text(extensions[i].0.as_str(), uri) {
            assert(is_first(extensions@, uri@, i as int));
            let id: i64 = extensions[i].1;
            let low: i64 = if id >= 0 {
                id % 256
            } else {
                255 - (-1 - id) % 256
            };
            return Some(low as u8);
        }
        i += 1;
    }
    None
}

/// Bytes that a number fits in give it back.
proof fn lemma_big_endian_of_bytes(value: nat, length: nat)
    requires
        value < vstd::arithmetic::power::pow(256, length),
    ensures
        big_endian_bytes(value, length).len() == length,
        big_endian(big_endian_bytes(value, length)) == value,
    decreases length,
{
    reveal(vstd::arithmetic::power::pow);
    if length > 0 {
        let p = vstd::arithmetic::power::pow(256, (length - 1) as nat);
        assert(value < 256 * p);
        assert(value / 256 < p) by (nonlinear_arith)
            requires
                value < 256 * p,
        ;
        lemma_big_endian_of_bytes(value / 256, (length - 1) as nat);
        let bytes = big_endian_bytes(value, length);
        assert(bytes.drop_last() =~= big_endian_bytes(value / 256, (length - 1) as nat));
    }
}

/// The creation time that a packet carries is the one that was written on it.
pub proof fn law_stamp_round_trip(created: u64)
    ensures
        stamp(Some(big_endian_bytes(created as nat, 8))) == Some(created),
{
    assert(vstd::arithmetic::power::pow(256, 8) == 0x1_0000_0000_0000_0000) by {
        reveal_with_fuel(vstd::arithmetic::power::pow, 9);
    }
    lemma_big_endian_of_bytes(created as nat, 8);
}

/// Bytes that a number fits in give it back.
pub proof fn lemma_little_endian_of_bytes(value: nat, length: nat)
    requires
        value < vstd::arithmetic::power::pow(256, length),
    ensures
        little_endian_bytes(value, length).len() == length,
        little_endian(little_endian_bytes(value, length)) == value,
    decreases length,
{
    reveal(vstd::arithmetic::power::pow);
    if length > 0 {
        let p = vstd::arithmetic::power::pow(256, (length - 1) as nat);
        assert(value < 256 * p);
        assert(value / 256 < p) by (nonlinear_arith)
            requires
                value < 256 * p,
        ;
        lemma_little_endian_of_bytes(value / 256, (length - 1) as nat);
        let bytes = little_endian_bytes(value, length);
        assert(bytes.drop_first() =~= little_endian_bytes(value / 256, (length - 1) as nat));
    }
}

/// A packet that carries no creation time, or not in eight bytes, counts as made at zero; one that
/// carries it as made then.
pub proof fn law_creation_time_of_packets(packet: PacketModel, created: u64)
    ensures
        packet.extension is None ==> created_at(packet) == 0,
        packet.extension matches Some(bytes) && bytes.len() != 8 ==> created_at(packet) == 0,
        packet.extension == Some(big_endian_bytes(created as nat, 8)) ==> created_at(packet)
            == created,
{
    law_stamp_round_trip(created);
}

} // verus!
