//! Internet addresses in text form, and the loopback rule.
use crate::text;
use vstd::arithmetic::power::pow;
use vstd::prelude::*;

verus! {

/// An internet address as a number, most significant part first.
#[derive(Clone, Copy, Debug, PartialEq, Eq, Structural)]
pub enum Ip {
    V4(u32),
    V6(u128),
}

/// An address and a port.
#[derive(Clone, Copy, Debug, PartialEq, Eq, Structural)]
pub struct Endpoint {
    pub ip: Ip,
    pub port: u16,
}

impl Ip {
    /// 127.0.0.0/8, and ::1.
    pub open spec fn local(self) -> bool {
        match self {
            Ip::V4(value) => value / 0x100_0000 == 127,
            Ip::V6(value) => value == 1,
        }
    }

    /// Whether the address is a loopback address.
    pub fn is_loopback(self) -> (r: bool)
        ensures
            r == self.local(),
    {
        match self {
            Ip::V4(value) => value / 0x100_0000 == 127,
            Ip::V6(value) => value == 1,
        }
    }

    /// Whether the address is an IPv4 address.
    pub fn is_ipv4(self) -> (r: bool)
        ensures
            r == (self is V4),
    {
        match self {
            Ip::V4(_) => true,
            Ip::V6(_) => false,
        }
    }
}

/// What a digit stands for.
pub open spec fn digit_value(c: char, radix: nat) -> Option<nat> {
    let value = if '0' <= c <= '9' {
        (c as nat - '0' as nat) as nat
    } else if 'a' <= c <= 'f' {
        (10 + c as nat - 'a' as nat) as nat
    } else if 'A' <= c <= 'F' {
        (10 + c as nat - 'A' as nat) as nat
    } else {
        radix
    };
    if value < radix {
        Some(value)
    } else {
        None
    }
}

/// What a text of digits stands for, if it holds nothing else.
pub open spec fn digits_value(text: Seq<char>, radix: nat) -> Option<nat>
    decreases text.len(),
{
    if text.len() == 0 {
        Some(0)
    } else {
        match (digits_value(text.drop_last(), radix), digit_value(text.last(), radix)) {
            (Some(front), Some(last)) => Some(front * radix + last),
            _ => None,
        }
    }
}

/// A decimal number up to 255, in one to three digits and without leading zeros.
pub open spec fn octet(text: Seq<char>) -> Option<nat> {
    match digits_value(text, 10) {
        Some(value) if 1 <= text.len() <= 3 && value <= 255 && (text.len() == 1 || text[0]
            != '0') => Some(value),
        _ => None,
    }
}

/// A hexadecimal number in one to four digits.
pub open spec fn hextet(text: Seq<char>) -> Option<nat> {
    match digits_value(text, 16) {
        Some(value) if 1 <= text.len() <= 4 => Some(value),
        _ => None,
    }
}

/// Four octets separated by dots.
pub open spec fn v4_value(text: Seq<char>) -> Option<nat> {
    let parts = text::pieces(text, '.');
    if parts.len() == 4 {
        match (octet(parts[0]), octet(parts[1]), octet(parts[2]), octet(parts[3])) {
            (Some(a), Some(b), Some(c), Some(d)) => Some(
                a * 0x100_0000 + b * 0x1_0000 + c * 0x100 + d,
            ),
            _ => None,
        }
    } else {
        None
    }
}

/// The values of hexadecimal groups.
pub open spec fn hextets(parts: Seq<Seq<char>>) -> Option<Seq<nat>>
    decreases parts.len(),
{
    if parts.len() == 0 {
        Some(seq![])
    } else {
        match (hextets(parts.drop_last()), hextet(parts.last())) {
            (Some(front), Some(last)) => Some(front.push(last)),
            _ => None,
        }
    }
}

/// Groups separated by colons; none in an empty text. Where `tail` holds, the last may be
/// written as an IPv4 address, which stands for two groups.
pub open spec fn groups(text: Seq<char>, tail: bool) -> Option<Seq<nat>> {
    let parts = text::pieces(text, ':');
    if text.len() == 0 {
        Some(seq![])
    } else {
        match (hextets(parts.drop_last()), hextet(parts.last()), v4_value(parts.last())) {
            (Some(front), Some(last), _) => Some(front.push(last)),
            (Some(front), None, Some(v4)) if tail => Some(
                front.push(v4 / 0x1_0000).push(v4 % 0x1_0000),
            ),
            _ => None,
        }
    }
}

/// Where the first two adjacent colons stand, or -1.
pub open spec fn gap(text: Seq<char>) -> int
    decreases text.len(),
{
    if text.len() < 2 {
        -1
    } else if text[0] == ':' && text[1] == ':' {
        0
    } else if gap(text.drop_first()) < 0 {
        -1
    } else {
        gap(text.drop_first()) + 1
    }
}

/// The number with the given sixteen bit groups, most significant first.
pub open spec fn assembled(list: Seq<nat>) -> nat
    decreases list.len(),
{
    if list.len() == 0 {
        0
    } else {
        assembled(list.drop_last()) * 0x1_0000 + list.last()
    }
}

/// Eight groups, or fewer where two adjacent colons stand for at least one group of zeros.
pub open spec fn v6_groups(text: Seq<char>) -> Option<Seq<nat>> {
    let at = gap(text);
    if at < 0 {
        match groups(text, true) {
            Some(all) if all.len() == 8 => Some(all),
            _ => None,
        }
    } else {
        match (groups(text.take(at), false), groups(text.skip(at + 2), true)) {
            (Some(head), Some(tail)) if head.len() + tail.len() <= 7 => Some(
                head + Seq::new((8 - head.len() - tail.len()) as nat, |i: int| 0nat) + tail,
            ),
            _ => None,
        }
    }
}

/// The address that a text denotes, if it denotes one.
pub open spec fn parsed(text: Seq<char>) -> Option<Ip> {
    match v4_value(text) {
        Some(value) => Some(Ip::V4(value as u32)),
        None => match v6_groups(text) {
            Some(list) => Some(Ip::V6(assembled(list) as u128)),
            None => None,
        },
    }
}

fn read_digit(c: char, radix: u32) -> (r: Option<u32>)
    requires
        radix == 10 || radix == 16,
    ensures
        match r {
            Some(value) => digit_value(c, radix as nat) == Some(value as nat) && value < radix,
            None => digit_value(c, radix as nat) is None,
        },
{
    let value: u32 = if '0' <= c && c <= '9' {
        c as u32 - '0' as u32
    } else if 'a' <= c && c <= 'f' {
        10 + (c as u32 - 'a' as u32)
    } else if 'A' <= c && c <= 'F' {
        10 + (c as u32 - 'A' as u32)
    } else {
        radix
    };
    if value < radix {
        Some(value)
    } else {
        None
    }
}

/// The value of up to four digits.
fn read_digits(text: &Vec<char>, radix: u32) -> (r: Option<u32>)
    requires
        radix == 10 || radix == 16,
        text.len() <= 4,
    ensures
        match r {
            Some(value) => digits_value(text@, radix as nat) == Some(value as nat) && value
                <= 0xffff,
            None => digits_value(text@, radix as nat) is None,
        },
{
    let mut value: u32 = 0;
    let mut limit: u32 = 1;
    let mut i: usize = 0;
    while i < text.len()
        invariant
            i <= text.len() <= 4,
            radix == 10 || radix == 16,
            digits_value(text@.take(i as int), radix as nat) == Some(value as nat),
            value < limit,
            i == 0 ==> limit == 1,
            i == 1 ==> limit == 16,
            i == 2 ==> limit == 0x100,
            i == 3 ==> limit == 0x1000,
            i == 4 ==> limit == 0x1_0000,
        decreases text.len() - i,
    {
        assert(text@.take(i + 1).drop_last() =~= text@.take(i as int));
        match read_digit(text[i], radix) {
            Some(last) => {
                assert(value * radix + last < limit * 16) by (nonlinear_arith)
                    requires
                        value < limit,
                        radix <= 16,
                        last < radix,
                ;
                value = value * radix + last;
                limit = limit * 16;
            },
            None => {
                proof {
                    lemma_prefix_fails(text@, radix as nat, i + 1);
                }
                return None;
            },
        }
        i += 1;
    }
    assert(text@.take(text@.len() as int) =~= text@);
    Some(value)
}

proof fn lemma_prefix_fails(text: Seq<char>, radix: nat, length: int)
    requires
        0 <= length <= text.len(),
        digits_value(text.take(length), radix) is None,
    ensures
        digits_value(text, radix) is None,
    decreases text.len() - length,
{
    if length == text.len() {
        assert(text.take(length) =~= text);
    } else {
        assert(text.take(length + 1).drop_last() =~= text.take(length));
        lemma_prefix_fails(text, radix, length + 1);
    }
}

fn read_octet(text: &Vec<char>) -> (r: Option<u32>)
    ensures
        match r {
            Some(value) => octet(text@) == Some(value as nat) && value <= 255,
            None => octet(text@) is None,
        },
{
    if text.len() < 1 || text.len() > 3 || (text.len() > 1 && text[0] == '0') {
        return None;
    }
    match read_digits(text, 10) {
        Some(value) if value <= 255 => Some(value),
        _ => None,
    }
}

fn read_hextet(text: &Vec<char>) -> (r: Option<u16>)
    ensures
        match r {
            Some(value) => hextet(text@) == Some(value as nat),
            None => hextet(text@) is None,
        },
{
    if text.len() < 1 || text.len() > 4 {
        return None;
    }
    match read_digits(text, 16) {
        Some(value) => Some(value as u16),
        None => None,
    }
}

fn read_v4(text: &Vec<char>) -> (r: Option<u32>)
    ensures
        match r {
            Some(value) => v4_value(text@) == Some(value as nat),
            None => v4_value(text@) is None,
        },
{
    let parts = text::split_pieces(text, '.');
    assert(text::views(parts@).len() == parts@.len());
    if parts.len() != 4 {
        return None;
    }
    assert(forall|i: int| 0 <= i < 4 ==> text::views(parts@)[i] == #[trigger] parts@[i]@);
    match (read_octet(&parts[0]), read_octet(&parts[1]), read_octet(&parts[2]), read_octet(
        &parts[3],
    )) {
        (Some(a), Some(b), Some(c), Some(d)) => Some(
            a * 0x100_0000 + b * 0x1_0000 + c * 0x100 + d,
        ),
        _ => None,
    }
}

/// The groups as natural numbers.
pub open spec fn naturals(list: Seq<u16>) -> Seq<nat> {
    list.map_values(|value: u16| value as nat)
}

proof fn lemma_hextets_fail(parts: Seq<Seq<char>>, length: int)
    requires
        0 <= length <= parts.len(),
        hextets(parts.take(length)) is None,
    ensures
        hextets(parts) is None,
    decreases parts.len() - length,
{
    if length == parts.len() {
        assert(parts.take(length) =~= parts);
    } else {
        assert(parts.take(length + 1).drop_last() =~= parts.take(length));
        lemma_hextets_fail(parts, length + 1);
    }
}

fn read_groups(text: &Vec<char>, tail: bool) -> (r: Option<Vec<u16>>)
    ensures
        match r {
            Some(list) => groups(text@, tail) == Some(naturals(list@)),
            None => groups(text@, tail) is None,
        },
{
    let mut list: Vec<u16> = Vec::new();
    if text.len() == 0 {
        assert(naturals(list@) =~= seq![]);
        return Some(list);
    }
    let parts = text::split_pieces(text, ':');
    let ghost all = text::views(parts@);
    let ghost front = all.drop_last();
    let mut i: usize = 0;
    assert(naturals(list@) =~= seq![]);
    assert(front.take(0) =~= seq![]);
    while i < parts.len() - 1
        invariant
            i <= parts.len() - 1,
            parts.len() > 0,
            text.len() > 0,
            all == text::views(parts@),
            all == text::pieces(text@, ':'),
            front == all.drop_last(),
            hextets(front.take(i as int)) == Some(naturals(list@)),
        decreases parts.len() - i,
    {
        assert(front.take(i + 1).drop_last() =~= front.take(i as int));
        assert(front.take(i + 1).last() == parts@[i as int]@);
        match read_hextet(&parts[i]) {
            Some(value) => {
                let ghost old_list = list@;
                list.push(value);
                assert(naturals(list@) =~= naturals(old_list).push(value as nat));
            },
            None => {
                proof {
                    lemma_hextets_fail(front, i + 1);
                }
                return None;
            },
        }
        i += 1;
    }
    assert(front.take(front.len() as int) =~= front);
    let ghost old_list = list@;
    let last = &parts[parts.len() - 1];
    assert(all.last() == last@);
    match read_hextet(last) {
        Some(value) => {
            list.push(value);
            assert(naturals(list@) =~= naturals(old_list).push(value as nat));
            Some(list)
        },
        None => match read_v4(last) {
            Some(value) if tail => {
                list.push((value / 0x1_0000) as u16);
                list.push((value % 0x1_0000) as u16);
                assert(naturals(list@) =~= naturals(old_list).push(value as nat / 0x1_0000).push(
                    value as nat % 0x1_0000,
                ));
                Some(list)
            },
            _ => None,
        },
    }
}

proof fn lemma_gap_is(text: Seq<char>, at: int)
    requires
        0 <= at < text.len() - 1,
        text[at] == ':',
        text[at + 1] == ':',
        forall|i: int| 0 <= i < at ==> !(#[trigger] text[i] == ':' && text[i + 1] == ':'),
    ensures
        gap(text) == at,
    decreases text.len(),
{
    if at > 0 {
        let rest = text.drop_first();
        assert(!(text[0] == ':' && text[1] == ':'));
        assert forall|i: int| 0 <= i < at - 1 implies !(#[trigger] rest[i] == ':' && rest[i + 1]
            == ':') by {
            assert(rest[i] == text[i + 1] && rest[i + 1] == text[i + 2]);
        }
        lemma_gap_is(rest, at - 1);
    }
}

proof fn lemma_no_gap(text: Seq<char>)
    requires
        forall|i: int|
            0 <= i < text.len() - 1 ==> !(#[trigger] text[i] == ':' && text[i + 1] == ':'),
    ensures
        gap(text) < 0,
    decreases text.len(),
{
    if text.len() >= 2 {
        let rest = text.drop_first();
        assert(!(text[0] == ':' && text[1] == ':'));
        assert forall|i: int| 0 <= i < rest.len() - 1 implies !(#[trigger] rest[i] == ':' && rest[i
            + 1] == ':') by {
            assert(rest[i] == text[i + 1] && rest[i + 1] == text[i + 2]);
        }
        lemma_no_gap(rest);
    }
}

/// Where the first two adjacent colons stand.
fn find_gap(text: &Vec<char>) -> (r: Option<usize>)
    ensures
        match r {
            Some(at) => gap(text@) == at && at + 2 <= text.len(),
            None => gap(text@) < 0,
        },
{
    let mut i: usize = 0;
    while i < text.len() && text.len() - i >= 2
        invariant
            i <= text.len(),
            forall|j: int| 0 <= j < i ==> !(#[trigger] text@[j] == ':' && text@[j + 1] == ':'),
        decreases text.len() - i,
    {
        if text[i] == ':' && text[i + 1] == ':' {
            proof {
                lemma_gap_is(text@, i as int);
            }
            return Some(i);
        }
        i += 1;
    }
    proof {
        lemma_no_gap(text@);
    }
    None
}

proof fn lemma_assembled_bound(list: Seq<nat>)
    requires
        forall|i: int| 0 <= i < list.len() ==> #[trigger] list[i] < 0x1_0000,
    ensures
        assembled(list) < pow(0x1_0000, list.len()),
    decreases list.len(),
{
    vstd::arithmetic::power::lemma_pow0(0x1_0000);
    if list.len() > 0 {
        let front = list.drop_last();
        assert(forall|i: int| 0 <= i < front.len() ==> front[i] == list[i]);
        lemma_assembled_bound(front);
        reveal(pow);
        assert(pow(0x1_0000, list.len()) == 0x1_0000 * pow(0x1_0000, front.len()));
    }
}

/// The number that eight groups make.
fn assemble(list: &Vec<u16>) -> (value: u128)
    requires
        list.len() <= 8,
    ensures
        value == assembled(naturals(list@)),
{
    let mut value: u128 = 0;
    let mut i: usize = 0;
    let ghost all = naturals(list@);
    proof {
        assert(pow(0x1_0000, 0) == 1 && pow(0x1_0000, 1) == 0x1_0000 && pow(0x1_0000, 2)
            == 0x1_0000_0000 && pow(0x1_0000, 3) == 0x1_0000_0000_0000 && pow(0x1_0000, 4)
            == 0x1_0000_0000_0000_0000 && pow(0x1_0000, 5) == 0x1_0000_0000_0000_0000_0000 && pow(
            0x1_0000,
            6,
        ) == 0x1_0000_0000_0000_0000_0000_0000 && pow(0x1_0000, 7)
            == 0x1_0000_0000_0000_0000_0000_0000_0000 && pow(0x1_0000, 8)
            == 0x1_0000_0000_0000_0000_0000_0000_0000_0000) by {
            reveal_with_fuel(pow, 9);
        }
    }
    while i < list.len()
        invariant
            i <= list.len() <= 8,
            all == naturals(list@),
            value == assembled(all.take(i as int)),
            pow(0x1_0000, 8) == 0x1_0000_0000_0000_0000_0000_0000_0000_0000,
        decreases list.len() - i,
    {
        let ghost more = all.take(i + 1);
        assert(more.drop_last() =~= all.take(i as int));
        proof {
            assert forall|j: int| 0 <= j < more.len() implies #[trigger] more[j] < 0x1_0000 by {
                assert(more[j] == list@[j] as nat);
            }
            lemma_assembled_bound(more);
            vstd::arithmetic::power::lemma_pow_increases(0x1_0000, more.len(), 8);
        }
        value = value * 0x1_0000 + list[i] as u128;
        i += 1;
    }
    assert(all.take(all.len() as int) =~= all);
    value
}

fn read_v6(text: &Vec<char>) -> (r: Option<u128>)
    ensures
        match r {
            Some(value) => v6_groups(text@) is Some && value == assembled(v6_groups(text@)->0),
            None => v6_groups(text@) is None,
        },
{
    match find_gap(text) {
        None => match read_groups(text, true) {
            Some(list) if list.len() == 8 => {
                assert(naturals(list@).len() == 8);
                Some(assemble(&list))
            },
            Some(list) => {
                assert(naturals(list@).len() == list@.len());
                None
            },
            None => None,
        },
        Some(at) => {
            let front = text::slice(text, 0, at);
            let back = text::slice(text, at + 2, text.len());
            assert(front@ =~= text@.take(at as int));
            assert(back@ =~= text@.skip(at + 2));
            match (read_groups(&front, false), read_groups(&back, true)) {
                (Some(head), Some(tail)) => {
                    assert(naturals(head@).len() == head@.len());
                    assert(naturals(tail@).len() == tail@.len());
                    if head.len() > 7 || tail.len() > 7 - head.len() {
                        return None;
                    }
                    let mut list: Vec<u16> = Vec::new();
                    let mut i: usize = 0;
                    while i < 8
                        invariant
                            i <= 8,
                            list@.len() == i,
                            head.len() + tail.len() <= 7,
                            forall|j: int|
                                0 <= j < i ==> #[trigger] list@[j] == (if j < head.len() {
                                    head@[j]
                                } else if j < 8 - tail.len() {
                                    0u16
                                } else {
                                    tail@[j - (8 - tail.len())]
                                }),
                        decreases 8 - i,
                    {
                        if i < head.len() {
                            list.push(head[i]);
                        } else if i < 8 - tail.len() {
                            list.push(0);
                        } else {
                            list.push(tail[i - (8 - tail.len())]);
                        }
                        i += 1;
                    }
                    assert(naturals(list@) =~= v6_groups(text@)->0);
                    Some(assemble(&list))
                },
                _ => None,
            }
        },
    }
}

/// Reads an IPv4 or IPv6 address.
pub fn parse_ip(text: &Vec<char>) -> (r: Option<Ip>)
    ensures
        r == parsed(text@),
{
    match read_v4(text) {
        Some(value) => Some(Ip::V4(value)),
        None => match read_v6(text) {
            Some(value) => Some(Ip::V6(value)),
            None => None,
        },
    }
}

/// Four numbers with dots between them.
pub open spec fn dotted(a: nat, b: nat, c: nat, d: nat) -> Seq<char> {
    text::joined(
        seq![text::decimal(a), text::decimal(b), text::decimal(c), text::decimal(d)],
        seq!['.'],
    )
}

/// A decimal number is read as the number.
proof fn lemma_digits_of_decimal(value: nat)
    ensures
        digits_value(text::decimal(value), 10) == Some(value),
    decreases value,
{
    text::law_decimal(value);
    let all = text::decimal(value);
    if value >= 10 {
        lemma_digits_of_decimal(value / 10);
        assert(all.drop_last() == text::decimal(value / 10));
    } else {
        assert(all.drop_last() =~= seq![]);
        assert(digits_value(seq![], 10) == Some(0nat));
    }
}

/// An octet is a number up to 255 in decimal.
proof fn lemma_octet(part: Seq<char>, value: nat)
    ensures
        octet(part) == Some(value) <==> part == text::decimal(value) && value <= 255,
{
    text::law_decimal(value);
    lemma_digits_of_decimal(value);
    let written = text::decimal(value);
    if value <= 255 {
        if value >= 10 {
            text::law_decimal(value / 10);
            if value >= 100 {
                text::law_decimal(value / 100);
                assert(value / 10 / 10 == value / 100);
            }
        }
        assert(written.len() <= 3);
        assert(octet(written) == Some(value));
    }
    if octet(part) == Some(value) {
        lemma_digits_are_decimal(part, value);
    }
}

/// Digits without a leading zero are the number in decimal.
proof fn lemma_digits_are_decimal(part: Seq<char>, value: nat)
    requires
        digits_value(part, 10) == Some(value),
        part.len() > 0,
        part.len() == 1 || part[0] != '0',
    ensures
        part == text::decimal(value),
    decreases part.len(),
{
    let front = part.drop_last();
    let last = digit_value(part.last(), 10)->Some_0;
    if part.len() == 1 {
        assert(front =~= seq![]);
        assert(digits_value(seq![], 10) == Some(0nat));
        assert(value == last);
        assert(part =~= seq![text::digit(value)]);
    } else {
        let rest = digits_value(front, 10)->Some_0;
        assert(front[0] == part[0]);
        lemma_digits_are_decimal(front, rest);
        lemma_digits_of_decimal(rest);
        if rest == 0 {
            text::law_decimal(0);
            assert(front == seq![text::digit(0)]);
            assert(part[0] == '0');
        }
        assert(value == rest * 10 + last && value >= 10);
        assert(value / 10 == rest && value % 10 == last);
        assert(part =~= front.push(text::digit(last)));
    }
}

/// Four numbers with dots between them are read as those numbers.
proof fn lemma_dotted_is_read(a: nat, b: nat, c: nat, d: nat)
    requires
        a <= 255,
        b <= 255,
        c <= 255,
        d <= 255,
    ensures
        v4_value(dotted(a, b, c, d)) == Some(a * 0x100_0000 + b * 0x1_0000 + c * 0x100 + d),
{
    let list = seq![text::decimal(a), text::decimal(b), text::decimal(c), text::decimal(d)];
    text::law_decimal(a);
    text::law_decimal(b);
    text::law_decimal(c);
    text::law_decimal(d);
    assert forall|i: int, j: int| 0 <= i < list.len() && 0 <= j < list[i].len() implies #[trigger] list[i][j]
        != '.' by {
        assert(i == 0 || i == 1 || i == 2 || i == 3);
    }
    text::law_pieces_of_joined(list, '.');
    lemma_octet(list[0], a);
    lemma_octet(list[1], b);
    lemma_octet(list[2], c);
    lemma_octet(list[3], d);
}

/// What is read as four numbers is those numbers with dots between them.
proof fn lemma_read_is_dotted(words: Seq<char>) -> (r: (nat, nat, nat, nat))
    requires
        v4_value(words) is Some,
    ensures
        r.0 <= 255 && r.1 <= 255 && r.2 <= 255 && r.3 <= 255,
        words == dotted(r.0, r.1, r.2, r.3),
        v4_value(words) == Some(r.0 * 0x100_0000 + r.1 * 0x1_0000 + r.2 * 0x100 + r.3),
{
    let parts = text::pieces(words, '.');
    text::law_joined_of_pieces(words, '.');
    let p = octet(parts[0])->Some_0;
    let q = octet(parts[1])->Some_0;
    let r = octet(parts[2])->Some_0;
    let s = octet(parts[3])->Some_0;
    lemma_octet(parts[0], p);
    lemma_octet(parts[1], q);
    lemma_octet(parts[2], r);
    lemma_octet(parts[3], s);
    assert(parts =~= seq![
        text::decimal(p),
        text::decimal(q),
        text::decimal(r),
        text::decimal(s),
    ]);
    (p, q, r, s)
}

/// A text is an IPv4 address exactly if it is four numbers up to 255 in decimal with dots between them,
/// and then it is the address of those numbers.
pub proof fn law_dotted_addresses(words: Seq<char>, a: nat, b: nat, c: nat, d: nat)
    requires
        a <= 255,
        b <= 255,
        c <= 255,
        d <= 255,
    ensures
        words == dotted(a, b, c, d) <==> parsed(words) == Some(
            Ip::V4((((a * 256 + b) * 256 + c) * 256 + d) as u32),
        ),
{
    let value = ((a * 256 + b) * 256 + c) * 256 + d;
    assert(value == a * 0x100_0000 + b * 0x1_0000 + c * 0x100 + d);
    lemma_dotted_is_read(a, b, c, d);
    if parsed(words) == Some(Ip::V4(value as u32)) {
        let r = lemma_read_is_dotted(words);
        assert(r.0 == a && r.1 == b && r.2 == c && r.3 == d);
    }
}

/// The loopback addresses are those that begin with 127, and the IPv6 address one.
pub proof fn law_loopback(ip: Ip)
    ensures
        ip.local() <==> match ip {
            Ip::V4(value) => 0x7f00_0000 <= value <= 0x7fff_ffff,
            Ip::V6(value) => value == 1,
        },
{
}

/// Whether texts are groups of one to four hexadecimal digits each.
pub open spec fn are_groups(list: Seq<Seq<char>>) -> bool {
    forall|i: int| 0 <= i < list.len() ==> hextet(#[trigger] list[i]) is Some
}

/// The values of such texts.
pub open spec fn group_values(list: Seq<Seq<char>>) -> Seq<nat> {
    list.map_values(|part: Seq<char>| hextet(part)->Some_0)
}

proof fn lemma_hextets(list: Seq<Seq<char>>)
    requires
        are_groups(list),
    ensures
        hextets(list) == Some(group_values(list)),
    decreases list.len(),
{
    if list.len() > 0 {
        let front = list.drop_last();
        assert forall|i: int| 0 <= i < front.len() implies hextet(#[trigger] front[i]) is Some by {
            assert(front[i] == list[i]);
        }
        lemma_hextets(front);
        assert(hextet(list[list.len() - 1]) is Some);
        assert(group_values(front).push(hextet(list.last())->Some_0) =~= group_values(list));
    } else {
        assert(group_values(list) =~= seq![]);
    }
}

/// A group holds digits alone.
proof fn lemma_group_digits(part: Seq<char>, radix: nat)
    requires
        digits_value(part, radix) is Some,
    ensures
        forall|i: int| 0 <= i < part.len() ==> digit_value(#[trigger] part[i], radix) is Some,
    decreases part.len(),
{
    if part.len() > 0 {
        let front = part.drop_last();
        lemma_group_digits(front, radix);
        assert forall|i: int| 0 <= i < part.len() implies digit_value(
            #[trigger] part[i],
            radix,
        ) is Some by {
            if i < front.len() {
                assert(front[i] == part[i]);
            }
        }
    }
}

proof fn lemma_groups(list: Seq<Seq<char>>, tail: bool)
    requires
        are_groups(list),
    ensures
        groups(text::joined(list, seq![':']), tail) == Some(group_values(list)),
        list.len() > 0 ==> text::joined(list, seq![':']).len() > 0,
{
    let all = text::joined(list, seq![':']);
    if list.len() == 0 {
        assert(group_values(list) =~= seq![]);
    } else {
        assert forall|i: int, j: int| 0 <= i < list.len() && 0 <= j < list[i].len() implies
            #[trigger] list[i][j] != ':' by {
            assert(hextet(list[i]) is Some);
            lemma_group_digits(list[i], 16);
            assert(digit_value(list[i][j], 16) is Some);
        }
        text::law_pieces_of_joined(list, ':');
        lemma_joined_length(list);
        let front = list.drop_last();
        assert forall|i: int| 0 <= i < front.len() implies hextet(#[trigger] front[i]) is Some by {
            assert(front[i] == list[i]);
        }
        lemma_hextets(front);
        assert(hextet(list[list.len() - 1]) is Some);
        assert(group_values(front).push(hextet(list.last())->Some_0) =~= group_values(list));
    }
}

/// Groups with a colon between each two are as long as they are, and begin and end with digits.
proof fn lemma_joined_length(list: Seq<Seq<char>>)
    requires
        are_groups(list),
        list.len() > 0,
    ensures
        ({
            let all = text::joined(list, seq![':']);
            &&& all.len() > 0
            &&& all[0] != ':'
            &&& all.last() != ':'
            &&& forall|i: int| 0 <= i < all.len() - 1 ==> !(#[trigger] all[i] == ':' && all[i + 1] == ':')
        }),
    decreases list.len(),
{
    let all = text::joined(list, seq![':']);
    let last = list.last();
    assert(hextet(list[list.len() - 1]) is Some);
    lemma_group_digits(last, 16);
    assert(digit_value(last[0], 16) is Some && digit_value(last[last.len() - 1], 16) is Some);
    if list.len() == 1 {
        assert(all == last);
        assert forall|i: int| 0 <= i < all.len() - 1 implies !(#[trigger] all[i] == ':' && all[i + 1]
            == ':') by {
            assert(digit_value(last[i], 16) is Some);
        }
    } else {
        let front = list.drop_last();
        assert forall|i: int| 0 <= i < front.len() implies hextet(#[trigger] front[i]) is Some by {
            assert(front[i] == list[i]);
        }
        lemma_joined_length(front);
        let before = text::joined(front, seq![':']);
        assert(all == before + seq![':'] + last);
        assert forall|i: int| 0 <= i < all.len() - 1 implies !(#[trigger] all[i] == ':' && all[i + 1]
            == ':') by {
            let n = before.len() as int;
            if i < n - 1 {
                assert(before[i] == all[i] && before[i + 1] == all[i + 1]);
            } else if i == n - 1 {
                assert(all[i] == before.last());
            } else if i == n {
                assert(all[i + 1] == last[0]);
            } else {
                assert(all[i] == last[i - n - 1]);
                assert(digit_value(last[i - n - 1], 16) is Some);
            }
        }
    }
}

proof fn lemma_not_v4(words: Seq<char>)
    requires
        words.len() > 0,
        exists|i: int| 0 <= i < words.len() && words[i] == ':',
    ensures
        v4_value(words) is None,
{
    let parts = text::pieces(words, '.');
    text::law_joined_of_pieces(words, '.');
    if v4_value(words) is Some {
        assert forall|k: int, j: int| 0 <= k < parts.len() && 0 <= j < parts[k].len() implies
            #[trigger] parts[k][j] != ':' by {
            assert(octet(parts[k]) is Some) by {
                assert(k == 0 || k == 1 || k == 2 || k == 3);
            }
            lemma_group_digits(parts[k], 10);
            assert(digit_value(parts[k][j], 10) is Some);
        }
        lemma_joined_without(parts, ':');
        let i = choose|i: int| 0 <= i < words.len() && words[i] == ':';
        assert(words[i] != ':');
    }
}

proof fn lemma_joined_without(list: Seq<Seq<char>>, c: char)
    requires
        c != '.',
        forall|i: int, j: int|
            0 <= i < list.len() && 0 <= j < list[i].len() ==> #[trigger] list[i][j] != c,
    ensures
        forall|i: int|
            0 <= i < text::joined(list, seq!['.']).len() ==> #[trigger] text::joined(
                list,
                seq!['.'],
            )[i] != c,
    decreases list.len(),
{
    if list.len() == 1 {
        assert forall|i: int| 0 <= i < list[0].len() implies #[trigger] list[0][i] != c by {}
    } else if list.len() > 1 {
        let front = list.drop_last();
        assert forall|i: int, j: int| 0 <= i < front.len() && 0 <= j < front[i].len() implies
            #[trigger] front[i][j] != c by {
            assert(list[i][j] != c);
        }
        lemma_joined_without(front, c);
        let before = text::joined(front, seq!['.']);
        let all = text::joined(list, seq!['.']);
        let last = list.last();
        assert forall|i: int| 0 <= i < all.len() implies #[trigger] all[i] != c by {
            if i < before.len() {
                assert(all[i] == before[i]);
            } else if i > before.len() {
                assert(all[i] == last[i - before.len() - 1]);
                assert(list[list.len() - 1][i - before.len() - 1] != c);
            }
        }
    }
}

/// Eight groups of hexadecimal digits with colons between them are the IPv6 address of their values,
/// most significant first.
pub proof fn law_eight_groups(list: Seq<Seq<char>>)
    requires
        are_groups(list),
        list.len() == 8,
    ensures
        parsed(text::joined(list, seq![':'])) == Some(
            Ip::V6(assembled(group_values(list)) as u128),
        ),
{
    let all = text::joined(list, seq![':']);
    lemma_groups(list, true);
    lemma_joined_length(list);
    lemma_no_gap(all);
    text::lemma_joined_front(list, seq![':']);
    assert(all[list[0].len() as int] == ':');
    lemma_not_v4(all);
}

/// Two colons in the place of one group or more stand for as many zeros as are missing to eight groups.
pub proof fn law_colons_stand_for_zeros(head: Seq<Seq<char>>, tail: Seq<Seq<char>>)
    requires
        are_groups(head),
        are_groups(tail),
        head.len() + tail.len() <= 7,
    ensures
        parsed(
            text::joined(head, seq![':']) + seq![':', ':'] + text::joined(tail, seq![':']),
        ) == Some(
            Ip::V6(
                assembled(
                    group_values(head) + Seq::new(
                        (8 - head.len() - tail.len()) as nat,
                        |i: int| 0nat,
                    ) + group_values(tail),
                ) as u128,
            ),
        ),
{
    let first = text::joined(head, seq![':']);
    let second = text::joined(tail, seq![':']);
    let all = first + seq![':', ':'] + second;
    let at = first.len() as int;
    lemma_groups(head, false);
    lemma_groups(tail, true);
    if head.len() > 0 {
        lemma_joined_length(head);
    }
    assert(all[at] == ':' && all[at + 1] == ':');
    assert forall|i: int| 0 <= i < at implies !(#[trigger] all[i] == ':' && all[i + 1] == ':') by {
        assert(all[i] == first[i]);
        if i < at - 1 {
            assert(all[i + 1] == first[i + 1]);
        }
    }
    lemma_gap_is(all, at);
    assert(all.take(at) =~= first);
    assert(all.skip(at + 2) =~= second);
    lemma_not_v4(all);
}

} // verus!
