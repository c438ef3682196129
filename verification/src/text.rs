//! Text: decoding bytes, white space, lines and decimal numbers.
use vstd::prelude::*;
use vstd::string::*;
use vstd::utf8::*;

use crate::bytes;

verus! {

/// What `String::from_utf8_lossy` makes of a byte string: the text, with every
/// maximal invalid sequence replaced by U+FFFD.
pub uninterp spec fn lossy_text(content: Seq<u8>) -> Seq<char>;

/// `String::from_utf8_lossy`, owned. Its result is a function of the bytes
/// alone, and valid UTF-8 comes back as the text it encodes.
#[verifier::external_body]
pub(crate) fn lossy(content: &[u8]) -> (text: String)
    ensures
        text@ == lossy_text(content@),
        valid_utf8(content@) ==> text@ == decode_utf8(content@),
{
    String::from_utf8_lossy(content).into_owned()
}

/// `std::str::from_utf8`: the text of the bytes exactly where they are valid UTF-8.
#[verifier::external_body]
pub(crate) fn utf8(content: &[u8]) -> (text: Option<&str>)
    ensures
        text is Some <==> valid_utf8(content@),
        text matches Some(t) ==> t@ == decode_utf8(content@),
{
    match std::str::from_utf8(content) {
        Ok(text) => Some(text),
        Err(_) => None,
    }
}

/// `String::push` appends one character.
pub assume_specification[ String::push ](s: &mut String, c: char)
    ensures
        final(s)@ == old(s)@.push(c),
;

/// The `White_Space` characters of Unicode.
pub open spec fn is_space(c: char) -> bool {
    ||| '\t' <= c <= '\r'
    ||| c == ' '
    ||| c == '\u{85}'
    ||| c == '\u{a0}'
    ||| c == '\u{1680}'
    ||| '\u{2000}' <= c <= '\u{200a}'
    ||| c == '\u{2028}'
    ||| c == '\u{2029}'
    ||| c == '\u{202f}'
    ||| c == '\u{205f}'
    ||| c == '\u{3000}'
}

/// `s` without leading white space.
pub open spec fn trim_start(s: Seq<char>) -> Seq<char>
    decreases s.len(),
{
    if s.len() > 0 && is_space(s[0]) {
        trim_start(s.skip(1))
    } else {
        s
    }
}

/// `s` without trailing white space.
pub open spec fn trim_end(s: Seq<char>) -> Seq<char>
    decreases s.len(),
{
    if s.len() > 0 && is_space(s.last()) {
        trim_end(s.drop_last())
    } else {
        s
    }
}

pub open spec fn trim(s: Seq<char>) -> Seq<char> {
    trim_end(trim_start(s))
}

pub open spec fn without_return(line: Seq<char>) -> Seq<char> {
    if line.len() > 0 && line.last() == '\r' {
        line.drop_last()
    } else {
        line
    }
}

/// The lines of a text: what a line feed ends, without a carriage return before
/// it, and what follows the last line feed where that is not empty.
pub open spec fn lines(text: Seq<char>) -> Seq<Seq<char>> {
    let parts = bytes::split(text, '\n');
    let ended = Seq::new((parts.len() - 1) as nat, |i: int| without_return(parts[i]));
    if parts.last().len() > 0 {
        ended.push(parts.last())
    } else {
        ended
    }
}

pub open spec fn digit(d: int) -> char {
    (48 + d) as char
}

/// The decimal digits of `n`.
pub open spec fn decimal(n: nat) -> Seq<char>
    decreases n,
{
    if n < 10 {
        seq![digit(n as int)]
    } else {
        decimal(n / 10).push(digit((n % 10) as int))
    }
}

pub open spec fn is_digit(c: char) -> bool {
    '0' <= c <= '9'
}

pub open spec fn all_digits(s: Seq<char>) -> bool {
    forall|i: int| 0 <= i < s.len() ==> is_digit(#[trigger] s[i])
}

/// The number that digits stand for.
pub open spec fn digits_value(s: Seq<char>) -> nat
    decreases s.len(),
{
    if s.len() == 0 {
        0
    } else {
        digits_value(s.drop_last()) * 10 + (s.last() as nat - 48) as nat
    }
}

/// The 64-bit number that a text holds: digits, behind one optional plus sign.
pub open spec fn parsed_u64(s: Seq<char>) -> Option<u64> {
    let digits = if s.len() > 0 && s[0] == '+' {
        s.skip(1)
    } else {
        s
    };
    if digits.len() > 0 && all_digits(digits) && digits_value(digits) <= u64::MAX {
        Some(digits_value(digits) as u64)
    } else {
        None
    }
}

pub proof fn lemma_decimal(n: nat)
    ensures
        decimal(n).len() > 0,
        all_digits(decimal(n)),
        digits_value(decimal(n)) == n,
    decreases n,
{
    if n < 10 {
        let s = decimal(n);
        assert(s.drop_last() =~= Seq::<char>::empty());
        assert(digits_value(s.drop_last()) == 0);
        assert(s.last() as nat == 48 + n);
    } else {
        lemma_decimal(n / 10);
        let s = decimal(n);
        assert(s.drop_last() =~= decimal(n / 10));
        assert(s.last() as nat == 48 + n % 10);
        assert forall|i: int| 0 <= i < s.len() implies is_digit(#[trigger] s[i]) by {
            if i < s.len() - 1 {
                assert(s[i] == decimal(n / 10)[i]);
            }
        }
    }
}

/// Only zero starts with the digit zero.
pub proof fn lemma_decimal_start(n: nat)
    requires
        n > 0,
    ensures
        decimal(n)[0] != '0',
    decreases n,
{
    if n >= 10 {
        lemma_decimal_start(n / 10);
        lemma_decimal(n / 10);
        assert(decimal(n)[0] == decimal(n / 10)[0]);
    }
}

/// Reading the decimal text of a number gives the number back.
pub proof fn decimal_round_trip(n: u64)
    ensures
        parsed_u64(decimal(n as nat)) == Some(n),
{
    lemma_decimal(n as nat);
    assert(is_digit(decimal(n as nat)[0]));
}

/// The value of a longer text of digits is not smaller.
proof fn lemma_value_grows(s: Seq<char>, n: int)
    requires
        0 <= n <= s.len(),
    ensures
        digits_value(s.take(n)) <= digits_value(s),
    decreases s.len(),
{
    if n < s.len() {
        lemma_value_grows(s.drop_last(), n);
        assert(s.drop_last().take(n) =~= s.take(n));
    } else {
        assert(s.take(n) =~= s);
    }
}

pub fn characters(text: &str) -> (chars: Vec<char>)
    ensures
        chars@ == text@,
{
    let mut chars: Vec<char> = Vec::new();
    for c in iter: text.chars()
        invariant
            chars@ == iter.seq().take(iter.index() as int),
            iter.seq() == text@,
    {
        chars.push(c);
        assert(chars@ =~= iter.seq().take(iter.index() + 1));
    }
    assert(text@.take(text@.len() as int) =~= text@);
    chars
}

/// The text of `chars[from..to]`.
pub fn text_of(chars: &Vec<char>, from: usize, to: usize) -> (text: String)
    requires
        from <= to <= chars@.len(),
    ensures
        text@ == chars@.subrange(from as int, to as int),
{
    let mut text = String::new();
    for i in from..to
        invariant
            from <= to <= chars@.len(),
            text@ == chars@.subrange(from as int, i as int),
    {
        text.push(chars[i]);
        assert(text@ =~= chars@.subrange(from as int, i + 1));
    }
    text
}

/// A copy of `chars[from..to]`.
pub fn slice(chars: &Vec<char>, from: usize, to: usize) -> (part: Vec<char>)
    requires
        from <= to <= chars@.len(),
    ensures
        part@ == chars@.subrange(from as int, to as int),
{
    let mut part: Vec<char> = Vec::new();
    for i in from..to
        invariant
            from <= to <= chars@.len(),
            part@ == chars@.subrange(from as int, i as int),
    {
        part.push(chars[i]);
        assert(part@ =~= chars@.subrange(from as int, i + 1));
    }
    part
}

pub fn is_white(c: char) -> (yes: bool)
    ensures
        yes == is_space(c),
{
    ('\t' <= c && c <= '\r') || c == ' ' || c == '\u{85}' || c == '\u{a0}' || c == '\u{1680}' || (
    '\u{2000}' <= c && c <= '\u{200a}') || c == '\u{2028}' || c == '\u{2029}' || c == '\u{202f}'
        || c == '\u{205f}' || c == '\u{3000}'
}

/// The text without white space around it.
pub fn trimmed(text: &str) -> (result: String)
    ensures
        result@ == trim(text@),
{
    let chars = characters(text);
    let mut from: usize = 0;
    assert(chars@.skip(0) =~= chars@);
    while from < chars.len() && is_white(chars[from])
        invariant
            from <= chars@.len(),
            trim_start(chars@) == trim_start(chars@.skip(from as int)),
        decreases chars@.len() - from,
    {
        assert(chars@.skip(from as int).skip(1) =~= chars@.skip(from + 1));
        from += 1;
    }
    assert(trim_start(chars@) =~= chars@.skip(from as int));
    let mut to: usize = chars.len();
    assert(chars@.subrange(from as int, to as int) =~= chars@.skip(from as int));
    while to > from && is_white(chars[to - 1])
        invariant
            from <= to <= chars@.len(),
            trim_end(chars@.skip(from as int)) == trim_end(chars@.subrange(from as int, to as int)),
        decreases to,
    {
        assert(chars@.subrange(from as int, to as int).drop_last() =~= chars@.subrange(
            from as int,
            to - 1,
        ));
        to -= 1;
    }
    text_of(&chars, from, to)
}

/// The decimal text of `n`.
pub fn decimal_text(n: u64) -> (text: String)
    ensures
        text@ == decimal(n as nat),
    decreases n,
{
    let c: char = (48u8 + (n % 10) as u8) as char;
    if n < 10 {
        let mut text = String::new();
        text.push(c);
        assert(text@ =~= decimal(n as nat));
        text
    } else {
        let mut text = decimal_text(n / 10);
        text.push(c);
        text
    }
}

/// The decimal text of a wider number.
pub fn decimal_wide(n: u128) -> (text: String)
    ensures
        text@ == decimal(n as nat),
    decreases n,
{
    let c: char = (48u8 + (n % 10) as u8) as char;
    if n < 10 {
        let mut text = String::new();
        text.push(c);
        assert(text@ =~= decimal(n as nat));
        text
    } else {
        let mut text = decimal_wide(n / 10);
        text.push(c);
        text
    }
}

/// The number that `chars` holds, where they hold one.
pub fn number(chars: &Vec<char>) -> (value: Option<u64>)
    ensures
        value == parsed_u64(chars@),
{
    let start: usize = if chars.len() > 0 && chars[0] == '+' {
        1
    } else {
        0
    };
    let ghost digits = if chars@.len() > 0 && chars@[0] == '+' {
        chars@.skip(1)
    } else {
        chars@
    };
    assert(digits =~= chars@.skip(start as int));
    if start == chars.len() {
        return None;
    }
    let mut value: u64 = 0;
    assert(digits_value(digits.take(0)) == 0);
    for i in start..chars.len()
        invariant
            start <= 1,
            start < chars@.len(),
            digits == chars@.skip(start as int),
            parsed_u64(chars@) == (if all_digits(digits) && digits_value(digits) <= u64::MAX {
                Some(digits_value(digits) as u64)
            } else {
                None
            }),
            forall|j: int| 0 <= j < i - start ==> is_digit(#[trigger] digits[j]),
            value == digits_value(digits.take(i - start)),
    {
        let c = chars[i];
        let ghost k: int = i - start;
        assert(digits[k] == c);
        if c < '0' || '9' < c {
            return None;
        }
        let d: u64 = (c as u32 - 48) as u64;
        assert(digits.take(k + 1).drop_last() =~= digits.take(k));
        assert(digits_value(digits.take(k + 1)) == value * 10 + d);
        if value > (u64::MAX - d) / 10 {
            proof {
                lemma_value_grows(digits, k + 1);
            }
            return None;
        }
        value = value * 10 + d;
    }
    assert(digits.take(digits.len() as int) =~= digits);
    Some(value)
}

/// The parts of `chars` between occurrences of `sep`.
pub fn parts(chars: &Vec<char>, sep: char) -> (result: Vec<Vec<char>>)
    ensures
        views(result@) == bytes::split(chars@, sep),
{
    let mut done: Vec<Vec<char>> = Vec::new();
    let mut current: Vec<char> = Vec::new();
    assert(chars@.take(0) =~= Seq::<char>::empty());
    assert(views(done@).push(current@) =~= bytes::split(chars@.take(0), sep));
    for i in 0..chars.len()
        invariant
            views(done@).push(current@) == bytes::split(chars@.take(i as int), sep),
    {
        assert(chars@.take(i + 1).drop_last() =~= chars@.take(i as int));
        let ghost before = views(done@);
        if chars[i] == sep {
            let finished = current;
            done.push(finished);
            current = Vec::new();
            assert(views(done@) =~= before.push(finished@));
            assert(views(done@).push(current@) =~= bytes::split(chars@.take(i + 1), sep));
        } else {
            current.push(chars[i]);
            assert(views(done@).push(current@) =~= bytes::split(chars@.take(i + 1), sep));
        }
    }
    assert(chars@.take(chars@.len() as int) =~= chars@);
    let ghost before = views(done@);
    let ghost last = current@;
    done.push(current);
    assert(views(done@) =~= before.push(last));
    done
}

/// What a list of character strings holds.
pub open spec fn views(items: Seq<Vec<char>>) -> Seq<Seq<char>> {
    Seq::new(items.len(), |i: int| items[i]@)
}

/// What a list of texts holds.
pub open spec fn texts(items: Seq<String>) -> Seq<Seq<char>> {
    Seq::new(items.len(), |i: int| items[i]@)
}

/// What a text holds, where there is one.
pub open spec fn optional(item: Option<String>) -> Option<Seq<char>> {
    match item {
        Some(text) => Some(text@),
        None => None,
    }
}

/// A copy of a text, where there is one.
pub fn copy_optional(item: &Option<String>) -> (result: Option<String>)
    ensures
        optional(result) == optional(*item),
{
    match item {
        Some(text) => Some(text.as_str().to_owned()),
        None => None,
    }
}

/// The lines of `chars`.
pub fn line_list(chars: &Vec<char>) -> (result: Vec<Vec<char>>)
    ensures
        views(result@) == lines(chars@),
{
    let all = parts(chars, '\n');
    proof {
        bytes::lemma_split_len(chars@, '\n');
    }
    let mut result: Vec<Vec<char>> = Vec::new();
    let ghost split = bytes::split(chars@, '\n');
    for i in 0..all.len() - 1
        invariant
            views(all@) == split,
            split.len() >= 1,
            views(result@) == Seq::new(i as nat, |j: int| without_return(split[j])),
    {
        let part = &all[i];
        assert(part@ == split[i as int]);
        let end: usize = if part.len() > 0 && part[part.len() - 1] == '\r' {
            part.len() - 1
        } else {
            part.len()
        };
        let line = slice(part, 0, end);
        assert(line@ =~= without_return(split[i as int]));
        let ghost before = views(result@);
        let ghost l = line@;
        result.push(line);
        assert(views(result@) =~= before.push(l));
        assert(views(result@) =~= Seq::new((i + 1) as nat, |j: int| without_return(split[j])));
    }
    let last = &all[all.len() - 1];
    assert(last@ == split.last());
    if last.len() > 0 {
        let line = slice(last, 0, last.len());
        assert(line@ =~= split.last());
        let ghost before = views(result@);
        let ghost l = line@;
        result.push(line);
        assert(views(result@) =~= before.push(l));
    }
    assert(views(result@) =~= lines(chars@));
    result
}

/// The bytes of an ASCII text are its characters.
pub proof fn lemma_ascii_bytes(s: &str)
    requires
        s.is_ascii(),
    ensures
        s.spec_bytes().len() == s@.len(),
        forall|i: int| 0 <= i < s@.len() ==> #[trigger] s.spec_bytes()[i] == s@[i] as u8,
{
    is_ascii_spec_bytes(s);
}

/// Whether two texts are equal.
pub fn equal(a: &Vec<char>, b: &str) -> (same: bool)
    ensures
        same == (a@ == b@),
{
    let other = characters(b);
    if a.len() != other.len() {
        return false;
    }
    for i in 0..a.len()
        invariant
            a@.len() == other@.len(),
            other@ == b@,
            forall|j: int| 0 <= j < i ==> a@[j] == other@[j],
    {
        if a[i] != other[i] {
            return false;
        }
    }
    assert(a@ =~= b@);
    true
}

/// Whether two texts are equal.
pub fn same(a: &str, b: &str) -> (same: bool)
    ensures
        same == (a@ == b@),
{
    let left = characters(a);
    equal(&left, b)
}

proof fn lemma_trim_start(s: Seq<char>) -> (a: int)
    ensures
        0 <= a <= s.len(),
        trim_start(s) == s.skip(a),
        forall|i: int| 0 <= i < a ==> is_space(#[trigger] s[i]),
        a < s.len() ==> !is_space(s[a]),
    decreases s.len(),
{
    if s.len() > 0 && is_space(s[0]) {
        let rest = s.skip(1);
        let b = lemma_trim_start(rest);
        assert(rest.skip(b) =~= s.skip(b + 1));
        assert forall|i: int| 0 <= i < b + 1 implies is_space(#[trigger] s[i]) by {
            if i > 0 {
                assert(rest[i - 1] == s[i]);
            }
        }
        if b < rest.len() {
            assert(rest[b] == s[b + 1]);
        }
        b + 1
    } else {
        assert(s.skip(0) =~= s);
        0
    }
}

proof fn lemma_trim_end(s: Seq<char>) -> (b: int)
    ensures
        0 <= b <= s.len(),
        trim_end(s) == s.take(b),
        forall|i: int| b <= i < s.len() ==> is_space(#[trigger] s[i]),
        b > 0 ==> !is_space(s[b - 1]),
    decreases s.len(),
{
    if s.len() > 0 && is_space(s.last()) {
        let init = s.drop_last();
        let b = lemma_trim_end(init);
        assert(init.take(b) =~= s.take(b));
        assert forall|i: int| b <= i < s.len() implies is_space(#[trigger] s[i]) by {
            if i < s.len() - 1 {
                assert(init[i] == s[i]);
            }
        }
        if b > 0 {
            assert(init[b - 1] == s[b - 1]);
        }
        b
    } else {
        assert(s.take(s.len() as int) =~= s);
        s.len() as int
    }
}

/// Trimming cuts white space off both ends, all of it and nothing else.
pub proof fn trimming_cuts_white_space(s: Seq<char>) -> (ends: (int, int))
    ensures
        0 <= ends.0 <= ends.1 <= s.len(),
        trim(s) == s.subrange(ends.0, ends.1),
        forall|i: int| 0 <= i < s.len() && (i < ends.0 || ends.1 <= i) ==> is_space(
            #[trigger] s[i],
        ),
        trim(s).len() > 0 ==> !is_space(trim(s)[0]) && !is_space(trim(s).last()),
{
    let a = lemma_trim_start(s);
    let rest = s.skip(a);
    let b = lemma_trim_end(rest);
    assert(rest.take(b) =~= s.subrange(a, a + b));
    assert forall|i: int| 0 <= i < s.len() && (i < a || a + b <= i) implies is_space(
        #[trigger] s[i],
    ) by {
        if i >= a {
            assert(rest[i - a] == s[i]);
        }
    }
    if b > 0 {
        assert(rest[b - 1] == s[a + b - 1]);
        assert(rest[0] == s[a]);
    }
    (a, a + b)
}

/// Of the ASCII characters the space and those from the tab to the carriage
/// return are white space.
pub proof fn white_space_of_ascii(c: char)
    requires
        (c as u32) < 128,
    ensures
        is_space(c) <==> c as u32 == 32 || 9 <= c as u32 <= 13,
{
}

/// A number is read from digits, also behind one plus sign and with zeros in
/// front; without digits, with anything else among them, or beyond 64 bits
/// there is none.
pub proof fn numbers_are_digits(s: Seq<char>, n: u64)
    ensures
        parsed_u64(decimal(n as nat)) == Some(n),
        parsed_u64(seq!['+'] + decimal(n as nat)) == Some(n),
        parsed_u64(Seq::empty()) is None,
        parsed_u64(seq!['+']) is None,
        s.len() > 0 && s[0] != '+' && (exists|i: int|
            0 <= i < s.len() && !('0' <= #[trigger] s[i] <= '9')) ==> parsed_u64(s) is None,
        parsed_u64(s) matches Some(value) ==> value == digits_value(
            if s[0] == '+' {
                s.skip(1)
            } else {
                s
            },
        ),
{
    decimal_round_trip(n);
    lemma_decimal(n as nat);
    assert((seq!['+'] + decimal(n as nat)).skip(1) =~= decimal(n as nat));
    assert(is_digit(decimal(n as nat)[0]));
    assert(seq!['+'].skip(1) =~= Seq::<char>::empty());
}

/// Lines end at line feeds, and a carriage return before one belongs to the
/// end. What follows the last line feed is a line as it is, where it is not
/// empty.
pub proof fn lines_end_at_line_feeds(parts: Seq<Seq<char>>, rest: Seq<char>)
    requires
        forall|i: int| 0 <= i < parts.len() ==> !(#[trigger] parts[i]).contains('\n'),
        !rest.contains('\n'),
    ensures
        ({
            let whole = lines(bytes::terminate(parts, '\n') + rest);
            &&& whole.len() == parts.len() + (if rest.len() > 0 {
                1int
            } else {
                0
            })
            &&& rest.len() > 0 ==> whole.last() == rest
            &&& forall|i: int|
                0 <= i < parts.len() ==> #[trigger] whole[i] == (if parts[i].len() > 0
                    && parts[i].last() == '\r' {
                    parts[i].take(parts[i].len() - 1)
                } else {
                    parts[i]
                })
        }),
{
    let body = bytes::terminate(parts, '\n');
    bytes::terminate_then_split(parts, '\n');
    bytes::lemma_split_extend(body, rest, '\n');
    let cut = bytes::split(body + rest, '\n');
    assert(Seq::<char>::empty() + rest =~= rest);
    assert(cut =~= parts.push(rest));
    let whole = lines(body + rest);
    assert forall|i: int| 0 <= i < parts.len() implies #[trigger] whole[i] == (if parts[i].len() > 0
        && parts[i].last() == '\r' {
        parts[i].take(parts[i].len() - 1)
    } else {
        parts[i]
    }) by {
        assert(whole[i] == without_return(cut[i]));
        if parts[i].len() > 0 {
            assert(parts[i].drop_last() =~= parts[i].take(parts[i].len() - 1));
        }
    }
}

/// Beyond ASCII these characters are white space.
pub proof fn white_space_beyond_ascii(c: char)
    requires
        (c as u32) >= 128,
    ensures
        is_space(c) <==> c as u32 == 0x85 || c as u32 == 0xa0 || c as u32 == 0x1680 || 0x2000
            <= c as u32 <= 0x200a || c as u32 == 0x2028 || c as u32 == 0x2029 || c as u32 == 0x202f
            || c as u32 == 0x205f || c as u32 == 0x3000,
{
}

/// A digit more makes a number ten times as great, and adds the digit.
pub proof fn digits_stand_for_tens(n: nat, d: nat, s: Seq<char>)
    requires
        d < 10,
    ensures
        decimal(d) == seq![(48 + d) as char],
        n > 0 ==> decimal(10 * n + d) == decimal(n).push((48 + d) as char),
        digits_value(s.push((48 + d) as char)) == 10 * digits_value(s) + d,
        digits_value(Seq::empty()) == 0,
{
    let m = 10 * n + d;
    assert(m / 10 == n && m % 10 == d);
    let more = s.push((48 + d) as char);
    assert(more.drop_last() =~= s);
    assert(more.last() as nat == 48 + d);
}

} // verus!
