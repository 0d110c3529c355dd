//! Text as sequences of characters: runs, lines, fields, separators and decimal numbers.
use vstd::prelude::*;

verus! {

/// `String::push` appends the character and changes nothing else.
pub assume_specification[ String::push ](string: &mut String, character: char)
    ensures
        final(string)@ == old(string)@.push(character),
;

/// The contents of a list of owned character lists.
pub open spec fn views(list: Seq<Vec<char>>) -> Seq<Seq<char>> {
    list.map_values(|item: Vec<char>| item@)
}

/// How many characters at the front of the text satisfy the predicate, up to the first that
/// does not.
pub open spec fn run(text: Seq<char>, wanted: spec_fn(char) -> bool) -> nat
    decreases text.len(),
{
    if text.len() > 0 && wanted(text[0]) {
        1 + run(text.drop_first(), wanted)
    } else {
        0
    }
}

/// A run is maximal: it is all of the text, or the character behind it is not wanted.
pub proof fn lemma_run(text: Seq<char>, wanted: spec_fn(char) -> bool)
    ensures
        run(text, wanted) <= text.len(),
        forall|i: int| 0 <= i < run(text, wanted) ==> wanted(#[trigger] text[i]),
        run(text, wanted) < text.len() ==> !wanted(text[run(text, wanted) as int]),
    decreases text.len(),
{
    if text.len() > 0 && wanted(text[0]) {
        let rest = text.drop_first();
        lemma_run(rest, wanted);
        assert forall|i: int| 0 <= i < run(text, wanted) implies wanted(#[trigger] text[i]) by {
            if i > 0 {
                assert(text[i] == rest[i - 1]);
            }
        }
    }
}

/// A prefix that is wanted throughout and cannot be extended is the run.
pub proof fn lemma_run_is(text: Seq<char>, wanted: spec_fn(char) -> bool, length: int)
    requires
        0 <= length <= text.len(),
        forall|i: int| 0 <= i < length ==> wanted(#[trigger] text[i]),
        length < text.len() ==> !wanted(text[length]),
    ensures
        run(text, wanted) == length,
    decreases text.len(),
{
    if length > 0 {
        let rest = text.drop_first();
        assert(wanted(text[0]));
        assert forall|i: int| 0 <= i < length - 1 implies wanted(#[trigger] rest[i]) by {
            assert(rest[i] == text[i + 1]);
        }
        lemma_run_is(rest, wanted, length - 1);
    }
}

/// The characters with the Unicode property White_Space.
pub open spec fn is_space(c: char) -> bool {
    ||| '\u{9}' <= c <= '\u{d}'
    ||| c == ' '
    ||| c == '\u{85}'
    ||| c == '\u{a0}'
    ||| c == '\u{1680}'
    ||| '\u{2000}' <= c <= '\u{200a}'
    ||| c == '\u{2028}'
    ||| c == '\u{2029}'
    ||| c == '\u{202f}'
    ||| c == '\u{205f}'
    ||| c == '\u{3000}'
}

/// White space, as a predicate.
pub open spec fn blank() -> spec_fn(char) -> bool {
    |c: char| is_space(c)
}

/// What is not white space, as a predicate.
pub open spec fn solid() -> spec_fn(char) -> bool {
    |c: char| !is_space(c)
}

/// Whether the character is white space.
pub fn space(c: char) -> (r: bool)
    ensures
        r == is_space(c),
{
    ('\u{9}' <= c && c <= '\u{d}') || c == ' ' || c == '\u{85}' || c == '\u{a0}' || c == '\u{1680}'
        || ('\u{2000}' <= c && c <= '\u{200a}') || c == '\u{2028}' || c == '\u{2029}' || c
        == '\u{202f}' || c == '\u{205f}' || c == '\u{3000}'
}

/// The characters of a string.
pub fn characters(text: &str) -> (list: Vec<char>)
    ensures
        list@ == text@,
{
    let mut list: Vec<char> = Vec::new();
    for c in it: text.chars()
        invariant
            list@ == text@.take(it.index()),
            it.seq() == text@,
    {
        list.push(c);
        assert(text@.take(it.index() + 1) =~= text@.take(it.index()).push(c));
    }
    assert(text@.take(text@.len() as int) =~= text@);
    list
}

/// The string made of the given characters.
pub fn string_from(list: &Vec<char>) -> (text: String)
    ensures
        text@ == list@,
{
    let mut text = String::new();
    let mut i: usize = 0;
    while i < list.len()
        invariant
            i <= list.len(),
            text@ == list@.take(i as int),
        decreases list.len() - i,
    {
        text.push(list[i]);
        assert(list@.take(i + 1) =~= list@.take(i as int).push(list@[i as int]));
        i += 1;
    }
    assert(list@.take(list@.len() as int) =~= list@);
    text
}

/// A copy of the characters from `start` up to `end`.
pub fn slice(list: &Vec<char>, start: usize, end: usize) -> (part: Vec<char>)
    requires
        start <= end <= list.len(),
    ensures
        part@ == list@.subrange(start as int, end as int),
{
    let mut part: Vec<char> = Vec::new();
    let mut i: usize = start;
    while i < end
        invariant
            start <= i <= end <= list.len(),
            part@ == list@.subrange(start as int, i as int),
        decreases end - i,
    {
        part.push(list[i]);
        assert(list@.subrange(start as int, i + 1) =~= list@.subrange(start as int, i as int).push(
            list@[i as int],
        ));
        i += 1;
    }
    part
}

/// Whether two character lists are the same text.
pub fn same(a: &Vec<char>, b: &Vec<char>) -> (r: bool)
    ensures
        r == (a@ == b@),
{
    if a.len() != b.len() {
        return false;
    }
    let mut i: usize = 0;
    while i < a.len()
        invariant
            i <= a.len(),
            a.len() == b.len(),
            forall|j: int| 0 <= j < i ==> a@[j] == b@[j],
        decreases a.len() - i,
    {
        if a[i] != b[i] {
            return false;
        }
        i += 1;
    }
    assert(a@ =~= b@);
    true
}

/// Whether two strings are the same text.
pub fn same_text(a: &str, b: &str) -> (r: bool)
    ensures
        r == (a@ == b@),
{
    same(&characters(a), &characters(b))
}

/// Whether the text starts with the prefix.
pub fn starts_with(text: &Vec<char>, prefix: &Vec<char>) -> (r: bool)
    ensures
        r == prefix@.is_prefix_of(text@),
{
    if text.len() < prefix.len() {
        return false;
    }
    let mut i: usize = 0;
    while i < prefix.len()
        invariant
            i <= prefix.len() <= text.len(),
            forall|j: int| 0 <= j < i ==> text@[j] == prefix@[j],
        decreases prefix.len() - i,
    {
        if text[i] != prefix[i] {
            assert(text@[i as int] == text@.subrange(0, prefix@.len() as int)[i as int]);
            return false;
        }
        i += 1;
    }
    assert(prefix@ =~= text@.subrange(0, prefix@.len() as int));
    true
}

/// Appends the characters of `more`.
pub fn append(list: &mut Vec<char>, more: &Vec<char>)
    ensures
        final(list)@ == old(list)@ + more@,
{
    let mut i: usize = 0;
    while i < more.len()
        invariant
            i <= more.len(),
            list@ == old(list)@ + more@.take(i as int),
        decreases more.len() - i,
    {
        list.push(more[i]);
        assert(more@.take(i + 1) =~= more@.take(i as int).push(more@[i as int]));
        i += 1;
    }
    assert(more@.take(more@.len() as int) =~= more@);
}

/// Appends a text to a list of characters.
pub fn write_text(list: &mut Vec<char>, more: &str)
    ensures
        final(list)@ == old(list)@ + more@,
{
    let more = characters(more);
    append(list, &more);
}

/// Appends a number in decimal digits to a list of characters.
pub fn write_number(list: &mut Vec<char>, value: u64)
    ensures
        final(list)@ == old(list)@ + decimal(value as nat),
{
    let more = number(value);
    append(list, &more);
}

/// The contents of a list of strings.
pub open spec fn strings(list: Seq<String>) -> Seq<Seq<char>> {
    list.map_values(|item: String| item@)
}

/// The text without leading white space.
pub open spec fn trim_start(text: Seq<char>) -> Seq<char> {
    text.skip(run(text, blank()) as int)
}

/// The text without trailing white space.
pub open spec fn trim_end(text: Seq<char>) -> Seq<char>
    decreases text.len(),
{
    if text.len() > 0 && is_space(text.last()) {
        trim_end(text.drop_last())
    } else {
        text
    }
}

/// The text without leading and trailing white space.
pub open spec fn trimmed(text: Seq<char>) -> Seq<char> {
    trim_end(trim_start(text))
}

/// The text without leading and trailing white space.
pub fn trim(text: &Vec<char>) -> (r: Vec<char>)
    ensures
        r@ == trimmed(text@),
{
    let mut start: usize = 0;
    while start < text.len() && space(text[start])
        invariant
            start <= text.len(),
            forall|i: int| 0 <= i < start ==> is_space(#[trigger] text@[i]),
        decreases text.len() - start,
    {
        start += 1;
    }
    proof {
        lemma_run_is(text@, blank(), start as int);
    }
    let mut end: usize = text.len();
    assert(trim_start(text@) =~= text@.subrange(start as int, end as int));
    while start < end && space(text[end - 1])
        invariant
            start <= end <= text.len(),
            trimmed(text@) == trim_end(text@.subrange(start as int, end as int)),
        decreases end,
    {
        assert(text@.subrange(start as int, end as int).drop_last() =~= text@.subrange(
            start as int,
            end - 1,
        ));
        end -= 1;
    }
    slice(text, start, end)
}

/// What stands before a line feed is a line.
pub open spec fn within_line() -> spec_fn(char) -> bool {
    |c: char| c != '\n'
}

/// The text without one carriage return at its end.
pub open spec fn without_return(text: Seq<char>) -> Seq<char> {
    if text.len() > 0 && text.last() == '\r' {
        text.drop_last()
    } else {
        text
    }
}

/// The lines of a text. A line ends with a line feed, or with a carriage return and a line
/// feed; the last line may lack its ending.
pub open spec fn lines(text: Seq<char>) -> Seq<Seq<char>>
    decreases text.len(),
{
    let end = run(text, within_line());
    if text.len() == 0 {
        seq![]
    } else if end >= text.len() {
        seq![text]
    } else {
        seq![without_return(text.take(end as int))] + lines(text.skip(end as int + 1))
    }
}

/// The lines of a text, without their endings.
pub fn split_lines(text: &Vec<char>) -> (list: Vec<Vec<char>>)
    ensures
        views(list@) == lines(text@),
{
    let mut list: Vec<Vec<char>> = Vec::new();
    let mut start: usize = 0;
    assert(text@.skip(0) =~= text@);
    assert(views(list@) + lines(text@) =~= lines(text@));
    while start < text.len()
        invariant
            start <= text.len(),
            views(list@) + lines(text@.skip(start as int)) == lines(text@),
        decreases text.len() - start,
    {
        let mut end: usize = start;
        while end < text.len() && text[end] != '\n'
            invariant
                start <= end <= text.len(),
                forall|i: int| start <= i < end ==> #[trigger] text@[i] != '\n',
            decreases text.len() - end,
        {
            end += 1;
        }
        let ghost rest = text@.skip(start as int);
        let ghost before = views(list@);
        proof {
            assert forall|i: int| 0 <= i < end - start implies within_line()(#[trigger] rest[i]) by {
                assert(rest[i] == text@[start + i]);
            }
            lemma_run_is(rest, within_line(), end - start);
        }
        if end == text.len() {
            let line = slice(text, start, end);
            assert(line@ =~= rest);
            list.push(line);
            assert(views(list@) =~= before.push(rest));
            assert(text@.skip(end as int) =~= seq![]);
            assert(views(list@) + lines(text@.skip(end as int)) =~= before + lines(rest));
            start = end;
        } else {
            let stop: usize = if end > start && text[end - 1] == '\r' {
                end - 1
            } else {
                end
            };
            let line = slice(text, start, stop);
            assert(rest.take(end - start) =~= text@.subrange(start as int, end as int));
            assert(line@ =~= without_return(rest.take(end - start)));
            list.push(line);
            assert(views(list@) =~= before.push(line@));
            assert(rest.skip(end - start + 1) =~= text@.skip(end + 1));
            assert(views(list@) + lines(text@.skip(end + 1)) =~= before + lines(rest));
            start = end + 1;
        }
    }
    assert(text@.skip(start as int) =~= seq![]);
    assert(views(list@) + lines(text@.skip(start as int)) =~= views(list@));
    list
}

/// The fields of a line: its longest stretches without white space.
pub open spec fn fields(text: Seq<char>) -> Seq<Seq<char>>
    decreases text.len(),
    via fields_decrease
{
    let start = text.skip(run(text, blank()) as int);
    if start.len() == 0 {
        seq![]
    } else {
        let end = run(start, solid()) as int;
        seq![start.take(end)] + fields(start.skip(end))
    }
}

#[via_fn]
proof fn fields_decrease(text: Seq<char>) {
    lemma_run(text, blank());
    let start = text.skip(run(text, blank()) as int);
    lemma_run(start, solid());
    if start.len() > 0 {
        assert(start[0] == text[run(text, blank()) as int]);
        assert(solid()(start[0]));
    }
}

/// The fields of a line.
pub fn split_fields(text: &Vec<char>) -> (list: Vec<Vec<char>>)
    ensures
        views(list@) == fields(text@),
{
    let mut list: Vec<Vec<char>> = Vec::new();
    let mut at: usize = 0;
    assert(text@.skip(0) =~= text@);
    assert(views(list@) + fields(text@) =~= fields(text@));
    loop
        invariant
            at <= text.len(),
            views(list@) + fields(text@.skip(at as int)) == fields(text@),
        decreases text.len() - at,
    {
        let ghost rest = text@.skip(at as int);
        let ghost before = views(list@);
        let mut start: usize = at;
        while start < text.len() && space(text[start])
            invariant
                at <= start <= text.len(),
                forall|i: int| at <= i < start ==> is_space(#[trigger] text@[i]),
            decreases text.len() - start,
        {
            start += 1;
        }
        proof {
            assert forall|i: int| 0 <= i < start - at implies blank()(#[trigger] rest[i]) by {
                assert(rest[i] == text@[at + i]);
            }
            lemma_run_is(rest, blank(), start - at);
            assert(rest.skip(start - at) =~= text@.skip(start as int));
        }
        if start == text.len() {
            assert(fields(rest) =~= seq![]);
            assert(views(list@) =~= fields(text@));
            return list;
        }
        let ghost word = text@.skip(start as int);
        let mut end: usize = start;
        while end < text.len() && !space(text[end])
            invariant
                start <= end <= text.len(),
                forall|i: int| start <= i < end ==> !is_space(#[trigger] text@[i]),
            decreases text.len() - end,
        {
            end += 1;
        }
        proof {
            assert forall|i: int| 0 <= i < end - start implies solid()(#[trigger] word[i]) by {
                assert(word[i] == text@[start + i]);
            }
            lemma_run_is(word, solid(), end - start);
            assert(word.skip(end - start) =~= text@.skip(end as int));
            assert(word.take(end - start) =~= text@.subrange(start as int, end as int));
        }
        let field = slice(text, start, end);
        list.push(field);
        assert(views(list@) =~= before.push(field@));
        assert(views(list@) + fields(text@.skip(end as int)) =~= before + fields(rest));
        at = end;
    }
}

/// What stands before a separator is a piece.
pub open spec fn within_piece(separator: char) -> spec_fn(char) -> bool {
    |c: char| c != separator
}

/// The pieces between the separators; one more than there are separators.
pub open spec fn pieces(text: Seq<char>, separator: char) -> Seq<Seq<char>>
    decreases text.len(),
{
    let end = run(text, within_piece(separator));
    if end >= text.len() {
        seq![text]
    } else {
        seq![text.take(end as int)] + pieces(text.skip(end as int + 1), separator)
    }
}

/// The pieces between the separators.
pub fn split_pieces(text: &Vec<char>, separator: char) -> (list: Vec<Vec<char>>)
    ensures
        views(list@) == pieces(text@, separator),
        list.len() > 0,
{
    let mut list: Vec<Vec<char>> = Vec::new();
    let mut start: usize = 0;
    assert(text@.skip(0) =~= text@);
    assert(views(list@) + pieces(text@, separator) =~= pieces(text@, separator));
    loop
        invariant
            start <= text.len(),
            views(list@) + pieces(text@.skip(start as int), separator) == pieces(text@, separator),
        decreases text.len() - start,
    {
        let ghost rest = text@.skip(start as int);
        let ghost before = views(list@);
        let mut end: usize = start;
        while end < text.len() && text[end] != separator
            invariant
                start <= end <= text.len(),
                forall|i: int| start <= i < end ==> #[trigger] text@[i] != separator,
            decreases text.len() - end,
        {
            end += 1;
        }
        proof {
            assert forall|i: int| 0 <= i < end - start implies within_piece(separator)(#[trigger] rest[i]) by {
                assert(rest[i] == text@[start + i]);
            }
            lemma_run_is(rest, within_piece(separator), end - start);
        }
        let piece = slice(text, start, end);
        assert(rest.take(end - start) =~= piece@);
        list.push(piece);
        assert(views(list@) =~= before.push(piece@));
        if end == text.len() {
            assert(rest =~= piece@);
            assert(views(list@) =~= before + pieces(rest, separator));
            return list;
        }
        assert(rest.skip(end - start + 1) =~= text@.skip(end + 1));
        assert(views(list@) + pieces(text@.skip(end + 1), separator) =~= before + pieces(
            rest,
            separator,
        ));
        start = end + 1;
    }
}

/// The parts in order, with the separator between neighbours.
pub open spec fn joined(parts: Seq<Seq<char>>, separator: Seq<char>) -> Seq<char>
    decreases parts.len(),
{
    if parts.len() == 0 {
        seq![]
    } else if parts.len() == 1 {
        parts[0]
    } else {
        joined(parts.drop_last(), separator) + separator + parts.last()
    }
}

/// The parts in order, with the separator between neighbours.
pub fn join(parts: &Vec<Vec<char>>, separator: &Vec<char>) -> (text: Vec<char>)
    ensures
        text@ == joined(views(parts@), separator@),
{
    let mut text: Vec<char> = Vec::new();
    let mut i: usize = 0;
    let ghost all = views(parts@);
    while i < parts.len()
        invariant
            i <= parts.len(),
            all == views(parts@),
            text@ == joined(all.take(i as int), separator@),
        decreases parts.len() - i,
    {
        let ghost before = text@;
        if i > 0 {
            append(&mut text, separator);
        }
        append(&mut text, &parts[i]);
        proof {
            let more = all.take(i + 1);
            assert(more.drop_last() =~= all.take(i as int));
            assert(more.last() == parts@[i as int]@);
            if i == 0 {
                assert(text@ =~= parts@[0]@);
            }
        }
        i += 1;
    }
    assert(all.take(all.len() as int) =~= all);
    text
}

/// The character of a digit below ten.
pub open spec fn digit(value: nat) -> char
    recommends
        value < 10,
{
    ('0' as nat + value) as char
}

/// A number in decimal, without leading zeros.
pub open spec fn decimal(value: nat) -> Seq<char>
    decreases value,
{
    if value < 10 {
        seq![digit(value)]
    } else {
        decimal(value / 10).push(digit(value % 10))
    }
}

/// A number in decimal, without leading zeros.
pub fn number(value: u64) -> (text: Vec<char>)
    ensures
        text@ == decimal(value as nat),
    decreases value,
{
    let last = (48 + (value % 10) as u8) as char;
    if value < 10 {
        let mut text: Vec<char> = Vec::new();
        text.push(last);
        assert(text@ =~= seq![digit(value as nat)]);
        text
    } else {
        let mut text = number(value / 10);
        text.push(last);
        text
    }
}

/// Whether `a` stands before `b` where byte sequences are ordered lexicographically.
pub open spec fn before(a: Seq<u8>, b: Seq<u8>) -> bool
    decreases a.len(),
{
    if b.len() == 0 {
        false
    } else if a.len() == 0 {
        true
    } else if a[0] != b[0] {
        a[0] < b[0]
    } else {
        before(a.drop_first(), b.drop_first())
    }
}

/// Whether `a` stands before `b`, by the bytes of their encodings.
pub fn less(a: &str, b: &str) -> (r: bool)
    ensures
        r == before(vstd::utf8::encode_utf8(a@), vstd::utf8::encode_utf8(b@)),
{
    let x = a.as_bytes();
    let y = b.as_bytes();
    let mut i: usize = 0;
    assert(x@.skip(0) =~= x@);
    assert(y@.skip(0) =~= y@);
    loop
        invariant
            i <= x.len(),
            i <= y.len(),
            x@ == vstd::utf8::encode_utf8(a@),
            y@ == vstd::utf8::encode_utf8(b@),
            before(x@, y@) == before(x@.skip(i as int), y@.skip(i as int)),
        decreases x.len() - i,
    {
        if i == y.len() {
            return false;
        }
        if i == x.len() {
            return true;
        }
        if x[i] != y[i] {
            return x[i] < y[i];
        }
        assert(x@.skip(i as int).drop_first() =~= x@.skip(i + 1));
        assert(y@.skip(i as int).drop_first() =~= y@.skip(i + 1));
        i += 1;
    }
}

/// Of two different byte sequences exactly one stands before the other.
pub proof fn lemma_before_total(a: Seq<u8>, b: Seq<u8>)
    ensures
        !(before(a, b) && before(b, a)),
        a != b ==> before(a, b) || before(b, a),
        !before(a, a),
    decreases a.len(),
{
    if a.len() > 0 {
        if b.len() > 0 && a[0] == b[0] {
            lemma_before_total(a.drop_first(), b.drop_first());
            if a.drop_first() == b.drop_first() {
                assert(a =~= seq![a[0]] + a.drop_first());
                assert(b =~= seq![b[0]] + b.drop_first());
            }
        }
        lemma_before_total(a.drop_first(), a.drop_first());
    } else if b.len() == 0 {
        assert(a =~= b);
    }
}

/// A joined text starts with its first part.
pub proof fn lemma_joined_front(parts: Seq<Seq<char>>, separator: Seq<char>)
    requires
        parts.len() > 1,
    ensures
        joined(parts, separator) == parts[0] + separator + joined(parts.drop_first(), separator),
    decreases parts.len(),
{
    let rest = parts.drop_first();
    if parts.len() == 2 {
        assert(parts.drop_last() =~= seq![parts[0]]);
        assert(rest =~= seq![parts[1]]);
        assert(joined(parts.drop_last(), separator) == parts[0]);
        assert(joined(rest, separator) == parts[1]);
    } else {
        lemma_joined_front(parts.drop_last(), separator);
        assert(parts.drop_last().drop_first() =~= rest.drop_last());
        assert(joined(parts, separator) =~= parts[0] + separator + joined(rest, separator));
    }
}

/// A line ending in front of more text closes the first line.
proof fn lemma_lines_front(line: Seq<char>, more: Seq<char>)
    requires
        forall|i: int| 0 <= i < line.len() ==> #[trigger] line[i] != '\n',
    ensures
        lines(line + "\r\n"@ + more) == seq![line] + lines(more),
{
    reveal_strlit("\r\n");
    let all = line + "\r\n"@ + more;
    let end = line.len() as int + 1;
    assert(all[end] == '\n');
    assert forall|i: int| 0 <= i < end implies within_line()(#[trigger] all[i]) by {
        if i < line.len() {
            assert(all[i] == line[i]);
        }
    }
    lemma_run_is(all, within_line(), end);
    assert(all.take(end) =~= line.push('\r'));
    assert(without_return(all.take(end)) =~= line);
    assert(all.skip(end + 1) =~= more);
}

/// Lines that are joined by line endings, and closed by one, are found again.
pub proof fn lemma_lines_of_joined(list: Seq<Seq<char>>)
    requires
        list.len() > 0,
        forall|i: int, j: int|
            0 <= i < list.len() && 0 <= j < list[i].len() ==> #[trigger] list[i][j] != '\n',
    ensures
        lines(joined(list, "\r\n"@) + "\r\n"@) == list,
    decreases list.len(),
{
    let ending = "\r\n"@;
    let rest = list.drop_first();
    if list.len() == 1 {
        lemma_lines_front(list[0], seq![]);
        assert(joined(list, ending) + ending =~= list[0] + ending + seq![]);
        assert(seq![list[0]] + lines(seq![]) =~= list);
    } else {
        lemma_joined_front(list, ending);
        let tail = joined(rest, ending) + ending;
        assert(joined(list, ending) + ending =~= list[0] + ending + tail);
        assert forall|i: int, j: int| 0 <= i < rest.len() && 0 <= j < rest[i].len() implies
            #[trigger] rest[i][j] != '\n' by {
            assert(rest[i] == list[i + 1]);
            assert(list[i + 1][j] != '\n');
        }
        lemma_lines_of_joined(rest);
        lemma_lines_front(list[0], tail);
        assert(seq![list[0]] + rest =~= list);
    }
}

/// No line holds a line feed.
pub proof fn lemma_lines_within(text: Seq<char>)
    ensures
        forall|i: int, j: int|
            0 <= i < lines(text).len() && 0 <= j < lines(text)[i].len() ==> #[trigger] lines(
                text,
            )[i][j] != '\n',
    decreases text.len(),
{
    let end = run(text, within_line());
    lemma_run(text, within_line());
    if text.len() > 0 && end < text.len() {
        let more = text.skip(end as int + 1);
        lemma_lines_within(more);
        let first = without_return(text.take(end as int));
        assert forall|i: int, j: int| 0 <= i < lines(text).len() && 0 <= j < lines(text)[i].len()
            implies #[trigger] lines(text)[i][j] != '\n' by {
            if i == 0 {
                assert(lines(text)[0][j] == text[j]);
                assert(within_line()(text[j]));
            } else {
                assert(lines(text)[i] == lines(more)[i - 1]);
                assert(lines(more)[i - 1][j] != '\n');
            }
        }
    } else if text.len() > 0 {
        assert forall|i: int, j: int| 0 <= i < lines(text).len() && 0 <= j < lines(text)[i].len()
            implies #[trigger] lines(text)[i][j] != '\n' by {
            assert(within_line()(text[j]));
        }
    }
}

/// A field: some characters, none of them white space.
pub open spec fn is_field(text: Seq<char>) -> bool {
    text.len() > 0 && forall|i: int| 0 <= i < text.len() ==> !is_space(#[trigger] text[i])
}

/// White space in front of a line does not change its fields.
proof fn lemma_fields_after_space(text: Seq<char>)
    ensures
        fields(" "@ + text) == fields(text),
{
    reveal_strlit(" ");
    let all = " "@ + text;
    lemma_run(text, blank());
    let length = run(text, blank()) as int;
    assert forall|i: int| 0 <= i < length + 1 implies blank()(#[trigger] all[i]) by {
        if i > 0 {
            assert(all[i] == text[i - 1]);
        }
    }
    assert(length < text.len() ==> all[length + 1] == text[length]);
    lemma_run_is(all, blank(), length + 1);
    assert(all.skip(length + 1) =~= text.skip(length));
}

/// A field in front of the end, or of a space, is the first field.
proof fn lemma_fields_front(field: Seq<char>, more: Seq<char>)
    requires
        is_field(field),
        more.len() > 0 ==> is_space(more[0]),
    ensures
        fields(field + more) == seq![field] + fields(more),
{
    let all = field + more;
    assert(all[0] == field[0]);
    lemma_run_is(all, blank(), 0);
    assert(all.skip(0) =~= all);
    assert forall|i: int| 0 <= i < field.len() implies solid()(#[trigger] all[i]) by {
        assert(all[i] == field[i]);
    }
    assert(more.len() > 0 ==> all[field.len() as int] == more[0]);
    lemma_run_is(all, solid(), field.len() as int);
    assert(all.take(field.len() as int) =~= field);
    assert(all.skip(field.len() as int) =~= more);
}

/// Fields that are joined by spaces are found again.
pub proof fn lemma_fields_of_joined(list: Seq<Seq<char>>)
    requires
        forall|i: int| 0 <= i < list.len() ==> is_field(#[trigger] list[i]),
    ensures
        fields(joined(list, " "@)) == list,
    decreases list.len(),
{
    reveal_strlit(" ");
    lemma_run_is(seq![], blank(), 0);
    let nothing: Seq<char> = seq![];
    assert(nothing.skip(0) =~= nothing);
    assert(fields(nothing) =~= seq![]);
    if list.len() == 0 {
        assert(list =~= seq![]);
    } else if list.len() == 1 {
        lemma_fields_front(list[0], nothing);
        assert(list[0] + nothing =~= list[0]);
        assert(seq![list[0]] + fields(nothing) =~= list);
    } else {
        let rest = list.drop_first();
        lemma_joined_front(list, " "@);
        assert(forall|i: int| 0 <= i < rest.len() ==> rest[i] == list[i + 1]);
        lemma_fields_of_joined(rest);
        let tail = " "@ + joined(rest, " "@);
        assert(joined(list, " "@) =~= list[0] + tail);
        lemma_fields_front(list[0], tail);
        lemma_fields_after_space(joined(rest, " "@));
        assert(seq![list[0]] + rest =~= list);
    }
}

/// What a line splits into are fields.
pub proof fn lemma_fields_are_fields(text: Seq<char>)
    ensures
        forall|i: int| 0 <= i < fields(text).len() ==> is_field(#[trigger] fields(text)[i]),
    decreases text.len(),
{
    lemma_run(text, blank());
    let start = text.skip(run(text, blank()) as int);
    if start.len() > 0 {
        let end = run(start, solid()) as int;
        lemma_run(start, solid());
        let more = start.skip(end);
        assert(start[0] == text[run(text, blank()) as int]);
        assert(solid()(start[0]));
        assert(end > 0);
        lemma_fields_are_fields(more);
        assert forall|i: int| 0 <= i < fields(text).len() implies is_field(
            #[trigger] fields(text)[i],
        ) by {
            if i == 0 {
                let field = start.take(end);
                assert(fields(text)[0] == field);
                assert forall|j: int| 0 <= j < field.len() implies !is_space(#[trigger] field[j]) by {
                    assert(field[j] == start[j]);
                    assert(solid()(start[j]));
                }
            } else {
                assert(fields(text)[i] == fields(more)[i - 1]);
            }
        }
    }
}

/// A number is written in digits only.
pub proof fn lemma_decimal_is_field(value: nat)
    ensures
        is_field(decimal(value)),
        forall|i: int| 0 <= i < decimal(value).len() ==> '0' <= #[trigger] decimal(value)[i] <= '9',
    decreases value,
{
    if value >= 10 {
        lemma_decimal_is_field(value / 10);
    }
}

/// Space around a text does not count: what is left begins and ends with something else, or is empty,
/// and only space was taken from its two sides.
pub proof fn law_trimmed_text(text: Seq<char>) -> (r: (Seq<char>, Seq<char>))
    ensures
        text == r.0 + trimmed(text) + r.1,
        forall|i: int| 0 <= i < r.0.len() ==> is_space(#[trigger] r.0[i]),
        forall|i: int| 0 <= i < r.1.len() ==> is_space(#[trigger] r.1[i]),
        trimmed(text).len() > 0 ==> !is_space(trimmed(text)[0]) && !is_space(trimmed(text).last()),
{
    let count = run(text, blank()) as int;
    lemma_run(text, blank());
    let lead = text.take(count);
    let start = trim_start(text);
    let tail = lemma_trim_end(start);
    assert forall|i: int| 0 <= i < lead.len() implies is_space(#[trigger] lead[i]) by {
        assert(blank()(text[i]));
    }
    assert(text =~= lead + start);
    assert(lead + trimmed(text) + tail =~= lead + (trimmed(text) + tail));
    if trimmed(text).len() > 0 {
        assert(trimmed(text)[0] == start[0]);
        assert(start[0] == text[count]);
        assert(!blank()(text[count]));
    }
    (lead, tail)
}

proof fn lemma_trim_end(text: Seq<char>) -> (tail: Seq<char>)
    ensures
        text == trim_end(text) + tail,
        forall|i: int| 0 <= i < tail.len() ==> is_space(#[trigger] tail[i]),
        trim_end(text).len() > 0 ==> !is_space(trim_end(text).last()),
    decreases text.len(),
{
    if text.len() > 0 && is_space(text.last()) {
        let rest = lemma_trim_end(text.drop_last());
        let tail = rest.push(text.last());
        assert(text == text.drop_last().push(text.last()));
        assert(trim_end(text) + tail =~= (trim_end(text.drop_last()) + rest).push(text.last()));
        tail
    } else {
        assert(text =~= trim_end(text) + seq![]);
        seq![]
    }
}

/// Of the characters below 128, space are the blank, the tabulators, the line feed, the form feed and
/// the carriage return, and no others.
pub proof fn law_plain_spaces(c: char)
    requires
        (c as u32) < 128,
    ensures
        is_space(c) <==> c == ' ' || c == '\t' || c == '\n' || c == '\u{b}' || c == '\u{c}' || c
            == '\r',
{
}

/// A line ends at a line feed, with or without a carriage return before it; the last line may end with
/// the text, and an empty text has no line.
pub proof fn law_line_endings(line: Seq<char>, more: Seq<char>)
    requires
        forall|i: int| 0 <= i < line.len() ==> #[trigger] line[i] != '\n',
        line.len() > 0 ==> line.last() != '\r',
    ensures
        lines(line + seq!['\n'] + more) == seq![line] + lines(more),
        lines(line + seq!['\r', '\n'] + more) == seq![line] + lines(more),
        lines(line) == (if line.len() == 0 {
            seq![]
        } else {
            seq![line]
        }),
{
    let all = line + seq!['\n'] + more;
    let end = line.len() as int;
    assert forall|i: int| 0 <= i < end implies within_line()(#[trigger] all[i]) by {
        assert(all[i] == line[i]);
    }
    assert(all[end] == '\n');
    lemma_run_is(all, within_line(), end);
    assert(all.take(end) =~= line);
    assert(all.skip(end + 1) =~= more);
    reveal_strlit("\r\n");
    assert("\r\n"@ =~= seq!['\r', '\n']);
    lemma_lines_front(line, more);
    assert forall|i: int| 0 <= i < line.len() implies within_line()(#[trigger] line[i]) by {}
    lemma_run_is(line, within_line(), line.len() as int);
}

/// Fields are separated by space, however much of it and of whatever kind, and space before the first
/// or behind the last makes none.
pub proof fn law_fields_are_separated(field: Seq<char>, space: char, more: Seq<char>)
    requires
        is_space(space),
    ensures
        fields(seq![space] + more) == fields(more),
        field.len() > 0 && (forall|i: int|
            0 <= i < field.len() ==> !is_space(#[trigger] field[i])) ==> fields(
            field + seq![space] + more,
        ) == seq![field] + fields(more),
        fields(Seq::<char>::empty()) == Seq::<Seq<char>>::empty(),
{
    let nothing = Seq::<char>::empty();
    lemma_run_is(nothing, blank(), 0);
    assert(nothing.skip(0) =~= nothing);
    assert(fields(nothing) =~= seq![]);
    let all = seq![space] + more;
    lemma_run(more, blank());
    let length = run(more, blank()) as int;
    assert forall|i: int| 0 <= i < length + 1 implies blank()(#[trigger] all[i]) by {
        if i > 0 {
            assert(all[i] == more[i - 1]);
        }
    }
    assert(length < more.len() ==> all[length + 1] == more[length]);
    lemma_run_is(all, blank(), length + 1);
    assert(all.skip(length + 1) =~= more.skip(length));
    if field.len() > 0 && (forall|i: int| 0 <= i < field.len() ==> !is_space(#[trigger] field[i])) {
        assert(is_field(field));
        lemma_fields_front(field, all);
        assert(field + seq![space] + more =~= field + all);
    }
}

/// A number in decimal has digits alone, no zero in front of another digit, and is read back as the
/// number: it is ten times the number without its last digit, and that digit.
pub proof fn law_decimal(value: nat)
    ensures
        decimal(value).len() > 0,
        forall|i: int| 0 <= i < decimal(value).len() ==> '0' <= #[trigger] decimal(value)[i] <= '9',
        decimal(value).len() > 1 ==> decimal(value)[0] != '0',
        decimal(value).last() as nat == '0' as nat + value % 10,
        value >= 10 ==> decimal(value).drop_last() == decimal(value / 10),
        value < 10 ==> decimal(value).len() == 1,
    decreases value,
{
    lemma_decimal_is_field(value);
    if value >= 10 {
        law_decimal(value / 10);
        assert(decimal(value).drop_last() =~= decimal(value / 10));
        assert(decimal(value)[0] == decimal(value / 10)[0]);
        if value < 100 {
            assert(decimal(value / 10) == seq![digit(value / 10)]);
        }
    }
}

/// One text of bytes stands before another if it is the beginning of it, or has the smaller byte where
/// they first differ.
pub proof fn law_order_of_bytes(a: Seq<u8>, b: Seq<u8>, i: int)
    requires
        0 <= i <= a.len(),
        i <= b.len(),
        a.take(i) == b.take(i),
        i == a.len() || i == b.len() || a[i] != b[i],
    ensures
        before(a, b) <==> i < b.len() && (i == a.len() || a[i] < b[i]),
    decreases i,
{
    if i > 0 {
        assert(a[0] == a.take(i)[0] && b[0] == b.take(i)[0]);
        let x = a.drop_first();
        let y = b.drop_first();
        assert(x.take(i - 1) =~= a.take(i).drop_first());
        assert(y.take(i - 1) =~= b.take(i).drop_first());
        if i < a.len() {
            assert(x[i - 1] == a[i]);
        }
        if i < b.len() {
            assert(y[i - 1] == b[i]);
        }
        law_order_of_bytes(x, y, i - 1);
    }
}

/// Pieces that hold no separator, with one between each two of them, are the pieces of the whole.
pub proof fn law_pieces_of_joined(list: Seq<Seq<char>>, separator: char)
    requires
        list.len() > 0,
        forall|i: int, j: int|
            0 <= i < list.len() && 0 <= j < list[i].len() ==> #[trigger] list[i][j] != separator,
    ensures
        pieces(joined(list, seq![separator]), separator) == list,
    decreases list.len(),
{
    let first = list[0];
    assert forall|i: int| 0 <= i < first.len() implies within_piece(separator)(
        #[trigger] first[i],
    ) by {
        assert(list[0][i] != separator);
    }
    if list.len() == 1 {
        lemma_run_is(first, within_piece(separator), first.len() as int);
        assert(pieces(joined(list, seq![separator]), separator) =~= list);
    } else {
        let rest = list.drop_first();
        lemma_joined_front(list, seq![separator]);
        assert forall|i: int, j: int| 0 <= i < rest.len() && 0 <= j < rest[i].len() implies
            #[trigger] rest[i][j] != separator by {
            assert(list[i + 1][j] != separator);
        }
        law_pieces_of_joined(rest, separator);
        let all = joined(list, seq![separator]);
        let end = first.len() as int;
        assert forall|i: int| 0 <= i < end implies within_piece(separator)(#[trigger] all[i]) by {
            assert(all[i] == first[i]);
        }
        assert(all[end] == separator);
        lemma_run_is(all, within_piece(separator), end);
        assert(all.take(end) =~= first);
        assert(all.skip(end + 1) =~= joined(rest, seq![separator]));
        assert(pieces(all, separator) =~= list);
    }
}

/// A text is its pieces with a separator between each two of them, and no piece holds a separator.
pub proof fn law_joined_of_pieces(text: Seq<char>, separator: char)
    ensures
        pieces(text, separator).len() > 0,
        joined(pieces(text, separator), seq![separator]) == text,
        forall|i: int, j: int|
            0 <= i < pieces(text, separator).len() && 0 <= j < pieces(text, separator)[i].len()
                ==> #[trigger] pieces(text, separator)[i][j] != separator,
    decreases text.len(),
{
    let end = run(text, within_piece(separator)) as int;
    lemma_run(text, within_piece(separator));
    let all = pieces(text, separator);
    if end < text.len() {
        let more = text.skip(end + 1);
        law_joined_of_pieces(more, separator);
        let rest = pieces(more, separator);
        assert(all == seq![text.take(end)] + rest);
        assert(all.drop_first() =~= rest);
        lemma_joined_front(all, seq![separator]);
        assert(text[end] == separator);
        assert(text =~= text.take(end) + seq![separator] + more);
        assert forall|i: int, j: int| 0 <= i < all.len() && 0 <= j < all[i].len() implies
            #[trigger] all[i][j] != separator by {
            if i == 0 {
                assert(within_piece(separator)(text[j]));
            } else {
                assert(all[i] == rest[i - 1]);
                assert(rest[i - 1][j] != separator);
            }
        }
    } else {
        assert(all == seq![text]);
        assert forall|i: int, j: int| 0 <= i < all.len() && 0 <= j < all[i].len() implies
            #[trigger] all[i][j] != separator by {
            assert(within_piece(separator)(text[j]));
        }
    }
}

} // verus!
