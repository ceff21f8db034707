//! Small text routines over `&str`, each specified over sequences of characters.
use vstd::prelude::*;

use crate::protocol::wire::views;

verus! {

/// Trusts `String::push`: the character is appended at the end.
pub assume_specification[ String::push ](s: &mut String, ch: char)
    ensures
        final(s)@ == old(s)@.push(ch),
;

/// The decimal digits `0` to `9`.
pub open spec fn is_digit(c: char) -> bool {
    48 <= c as u32 <= 57
}

/// Every character is a decimal digit. Holds of the empty text.
pub open spec fn all_digits(s: Seq<char>) -> bool {
    forall|i: int| 0 <= i < s.len() ==> is_digit(#[trigger] s[i])
}

/// The digit that stands for `d`, for `d` below ten.
pub open spec fn digit_char(d: nat) -> char {
    (48 + d) as u8 as char
}

/// The shortest decimal notation of `n`.
pub open spec fn decimal(n: nat) -> Seq<char>
    decreases n,
{
    if n < 10 {
        seq![digit_char(n)]
    } else {
        decimal(n / 10).push(digit_char(n % 10))
    }
}

/// The number that a text of decimal digits denotes.
pub open spec fn decimal_value(s: Seq<char>) -> nat
    decreases s.len(),
{
    if s.len() == 0 {
        0
    } else {
        (decimal_value(s.drop_last()) * 10 + (s.last() as u32 - 48)) as nat
    }
}

/// The digits of a number with an optional leading plus sign.
pub open spec fn unsigned_digits(s: Seq<char>) -> Seq<char> {
    if s.len() > 0 && s[0] == '+' {
        s.skip(1)
    } else {
        s
    }
}

/// What the text denotes as an unsigned number that is at most `max`.
pub open spec fn unsigned_value(s: Seq<char>, max: nat) -> Option<nat> {
    let digits = unsigned_digits(s);
    if digits.len() > 0 && all_digits(digits) && decimal_value(digits) <= max {
        Some(decimal_value(digits))
    } else {
        None
    }
}

/// The position of the first `c`, or the length where there is none.
pub open spec fn first_index(s: Seq<char>, c: char) -> int
    decreases s.len(),
{
    if s.len() == 0 || s[0] == c {
        0
    } else {
        1 + first_index(s.skip(1), c)
    }
}

/// The parts of `s` between the separators. There is always at least one part.
pub open spec fn split_on(s: Seq<char>, separator: char) -> Seq<Seq<char>>
    decreases s.len(),
{
    proof {
        lemma_first_index(s, separator);
    }
    let i = first_index(s, separator);
    if i >= s.len() {
        seq![s]
    } else {
        seq![s.take(i)] + split_on(s.skip(i + 1), separator)
    }
}

pub proof fn lemma_first_index(s: Seq<char>, c: char)
    ensures
        0 <= first_index(s, c) <= s.len(),
        first_index(s, c) < s.len() ==> s[first_index(s, c)] == c,
        forall|j: int| 0 <= j < first_index(s, c) ==> s[j] != c,
    decreases s.len(),
{
    if s.len() > 0 && s[0] != c {
        lemma_first_index(s.skip(1), c);
        assert forall|j: int| 0 <= j < first_index(s, c) implies s[j] != c by {
            if j > 0 {
                assert(s[j] == s.skip(1)[j - 1]);
            }
        }
    }
}

/// The characters of a text, as a vector.
pub(crate) fn chars_of(s: &str) -> (r: Vec<char>)
    ensures
        r@ == s@,
{
    let mut out: Vec<char> = Vec::new();
    for c in it: s.chars()
        invariant
            out@ == it.seq().take(it.index()),
            it.seq() == s@,
    {
        assert(it.seq().take(it.index() + 1) == it.seq().take(it.index()).push(c));
        out.push(c);
    }
    assert(s@.take(s@.len() as int) == s@);
    out
}

pub(crate) fn is_digit_char(c: char) -> (r: bool)
    ensures
        r == is_digit(c),
{
    '0' <= c && c <= '9'
}

/// Appends the decimal notation of `n`.
pub(crate) fn push_decimal(out: &mut String, n: u64)
    ensures
        final(out)@ == old(out)@ + decimal(n as nat),
    decreases n,
{
    if n >= 10 {
        push_decimal(out, n / 10);
    }
    let digit: u8 = 48 + (n % 10) as u8;
    out.push(digit as char);
}

/// The decimal notation of `n`.
pub(crate) fn decimal_string(n: u64) -> (r: String)
    ensures
        r@ == decimal(n as nat),
{
    let mut out = String::new();
    push_decimal(&mut out, n);
    assert(out@ == decimal(n as nat));
    out
}

proof fn lemma_decimal_value_grows(s: Seq<char>, i: int)
    requires
        0 <= i <= s.len(),
        all_digits(s),
    ensures
        decimal_value(s.take(i)) <= decimal_value(s),
    decreases s.len() - i,
{
    if i < s.len() {
        lemma_decimal_value_grows(s, i + 1);
        assert(s.take(i + 1).drop_last() == s.take(i));
        assert(is_digit(s[i]));
    } else {
        assert(s.take(i) == s);
    }
}

/// Reads an unsigned number of at most 64 bits, with an optional plus sign.
pub(crate) fn parse_unsigned(s: &str) -> (r: Option<u64>)
    ensures
        r is Some <==> unsigned_value(s@, u64::MAX as nat) is Some,
        r is Some ==> unsigned_value(s@, u64::MAX as nat) == Some(r->0 as nat),
{
    let chars = chars_of(s);
    let start: usize = if chars.len() > 0 && chars[0] == '+' { 1 } else { 0 };
    let ghost digits = unsigned_digits(s@);
    assert(digits == s@.skip(start as int));
    if start == chars.len() {
        return None;
    }
    let mut value: u64 = 0;
    let mut i: usize = start;
    while i < chars.len()
        invariant
            start <= i <= chars.len(),
            chars@ == s@,
            digits == s@.skip(start as int),
            digits == unsigned_digits(s@),
            all_digits(digits.take(i - start)),
            value == decimal_value(digits.take(i - start)),
        decreases chars.len() - i,
    {
        let c = chars[i];
        assert(digits[i - start] == c);
        if !is_digit_char(c) {
            return None;
        }
        let d: u64 = (c as u32 - 48) as u64;
        let ghost next = digits.take(i - start + 1);
        assert(next.drop_last() == digits.take(i - start));
        assert(next.last() == c);
        assert(all_digits(next));
        if value > (u64::MAX - d) / 10 {
            proof {
                assert(value * 10 + d > u64::MAX);
                if all_digits(digits) {
                    lemma_decimal_value_grows(digits, i - start + 1);
                }
            }
            return None;
        }
        value = value * 10 + d;
        i = i + 1;
    }
    assert(digits.take(i - start) == digits);
    Some(value)
}

/// The decimal notation of a number is made of digits and denotes the number.
pub proof fn lemma_decimal_digits(n: nat)
    ensures
        decimal(n).len() > 0,
        all_digits(decimal(n)),
        decimal_value(decimal(n)) == n,
    decreases n,
{
    if n < 10 {
        assert(digit_char(n) as u32 == 48 + n);
        assert(decimal(n).last() == digit_char(n));
        assert(decimal(n).drop_last() == Seq::<char>::empty());
        assert(decimal_value(Seq::<char>::empty()) == 0);
    } else {
        lemma_decimal_digits(n / 10);
        let front = decimal(n / 10);
        assert(decimal(n) == front.push(digit_char(n % 10)));
        assert(decimal(n).drop_last() == front);
        assert(decimal(n).last() == digit_char(n % 10));
        assert(digit_char(n % 10) as u32 == 48 + n % 10);
        assert forall|i: int| 0 <= i < decimal(n).len() implies is_digit(
            #[trigger] decimal(n)[i],
        ) by {
            if i < front.len() {
                assert(decimal(n)[i] == front[i]);
                assert(is_digit(front[i]));
            }
        }
    }
}

/// Reading the decimal notation of a number gives the number back.
pub proof fn lemma_decimal_reads_back(n: nat, max: nat)
    requires
        n <= max,
    ensures
        unsigned_value(decimal(n), max) == Some(n),
{
    lemma_decimal_digits(n);
    assert(is_digit(decimal(n)[0]));
}

/// The length of the longest prefix of `s` that is free of `c`, from `start` on.
pub(crate) fn find_char(chars: &Vec<char>, start: usize, c: char) -> (r: usize)
    requires
        start <= chars@.len(),
    ensures
        start <= r <= chars@.len(),
        r - start == first_index(chars@.skip(start as int), c),
{
    let mut i: usize = start;
    let ghost rest = chars@.skip(start as int);
    while i < chars.len() && chars[i] != c
        invariant
            start <= i <= chars@.len(),
            rest == chars@.skip(start as int),
            forall|j: int| start <= j < i ==> chars@[j] != c,
        decreases chars@.len() - i,
    {
        i = i + 1;
    }
    proof {
        lemma_first_index(rest, c);
        let k = first_index(rest, c);
        if k < i - start {
            assert(rest[k] == chars@[start + k]);
        }
        if k > i - start {
            assert(rest[i - start] == chars@[i as int]);
        }
    }
    i
}

/// The parts of a text between separators.
pub(crate) fn split<'a>(s: &'a str, separator: char) -> (r: Vec<&'a str>)
    ensures
        r@.len() == split_on(s@, separator).len(),
        forall|i: int| 0 <= i < r@.len() ==> (#[trigger] r@[i])@ == split_on(s@, separator)[i],
{
    let chars = chars_of(s);
    let mut out: Vec<&'a str> = Vec::new();
    let mut start: usize = 0;
    let ghost all = split_on(s@, separator);
    assert(s@.skip(0) == s@);
    loop
        invariant
            chars@ == s@,
            start <= chars@.len(),
            all == split_on(s@, separator),
            all.len() == out@.len() + split_on(s@.skip(start as int), separator).len(),
            forall|i: int| 0 <= i < out@.len() ==> (#[trigger] out@[i])@ == all[i],
            forall|i: int|
                0 <= i < split_on(s@.skip(start as int), separator).len() ==> #[trigger] split_on(
                    s@.skip(start as int),
                    separator,
                )[i] == all[out@.len() + i],
        decreases chars@.len() - start,
    {
        let end = find_char(&chars, start, separator);
        let ghost rest = s@.skip(start as int);
        let ghost parts = split_on(rest, separator);
        let part = s.substring_char(start, end);
        proof {
            lemma_first_index(rest, separator);
            assert(part@ == rest.take(end - start));
            assert(parts[0] == rest.take(end - start));
            assert(parts[0] == all[out@.len() as int]);
        }
        out.push(part);
        if end == chars.len() {
            assert(parts.len() == 1);
            return out;
        }
        proof {
            let i = first_index(rest, separator);
            let tail = split_on(rest.skip(i + 1), separator);
            assert(rest.skip(i + 1) == s@.skip(end + 1));
            assert(parts == seq![rest.take(i)] + tail);
            assert forall|k: int| 0 <= k < tail.len() implies #[trigger] tail[k] == all[out@.len()
                + k] by {
                assert(parts[k + 1] == tail[k]);
            }
        }
        start = end + 1;
    }
}

/// What is left of `s` behind `prefix`, where `s` starts with it.
pub(crate) fn strip_prefix<'a>(s: &'a str, prefix: &str) -> (r: Option<&'a str>)
    ensures
        r is Some <==> prefix@.is_prefix_of(s@),
        r is Some ==> (r->0)@ == s@.skip(prefix@.len() as int),
{
    let n = s.unicode_len();
    let m = prefix.unicode_len();
    if m > n {
        return None;
    }
    let head = s.substring_char(0, m);
    if text_eq(head, prefix) {
        assert(prefix@ == s@.subrange(0, m as int));
        Some(s.substring_char(m, n))
    } else {
        None
    }
}

/// What is left of `s` before `suffix`, where `s` ends with it.
pub(crate) fn strip_suffix<'a>(s: &'a str, suffix: &str) -> (r: Option<&'a str>)
    ensures
        r is Some <==> suffix@.is_suffix_of(s@),
        r is Some ==> (r->0)@ == s@.take(s@.len() - suffix@.len()),
{
    let n = s.unicode_len();
    let m = suffix.unicode_len();
    if m > n {
        return None;
    }
    let tail = s.substring_char(n - m, n);
    if text_eq(tail, suffix) {
        assert(suffix@ == s@.subrange(n - m, n as int));
        Some(s.substring_char(0, n - m))
    } else {
        None
    }
}

/// Equality of texts.
pub(crate) fn text_eq(a: &str, b: &str) -> (r: bool)
    ensures
        r == (a@ == b@),
{
    let x = chars_of(a);
    let y = chars_of(b);
    if x.len() != y.len() {
        return false;
    }
    let mut i: usize = 0;
    while i < x.len()
        invariant
            x@ == a@,
            y@ == b@,
            x@.len() == y@.len(),
            i <= x@.len(),
            forall|j: int| 0 <= j < i ==> x@[j] == y@[j],
        decreases x@.len() - i,
    {
        if x[i] != y[i] {
            return false;
        }
        i = i + 1;
    }
    assert(a@ == b@);
    true
}

/// Equality of byte strings.
pub(crate) fn bytes_eq(a: &[u8], b: &[u8]) -> (r: bool)
    ensures
        r == (a@ == b@),
{
    if a.len() != b.len() {
        return false;
    }
    let mut i: usize = 0;
    while i < a.len()
        invariant
            a@.len() == b@.len(),
            i <= a@.len(),
            forall|j: int| 0 <= j < i ==> a@[j] == b@[j],
        decreases a@.len() - i,
    {
        if a[i] != b[i] {
            return false;
        }
        i = i + 1;
    }
    assert(a@ == b@);
    true
}

/// The hexadecimal digit of a half byte, in lower case.
pub open spec fn hex_digit(d: int) -> char {
    if d < 10 {
        (48 + d) as u8 as char
    } else {
        (87 + d) as u8 as char
    }
}

/// Two lowercase hexadecimal digits for each byte.
pub open spec fn hex(bytes: Seq<u8>) -> Seq<char> {
    Seq::new(
        2 * bytes.len(),
        |i: int|
            if i % 2 == 0 {
                hex_digit(bytes[i / 2] as int / 16)
            } else {
                hex_digit(bytes[i / 2] as int % 16)
            },
    )
}

fn hex_digit_char(d: u8) -> (r: char)
    requires
        d < 16,
    ensures
        r == hex_digit(d as int),
{
    let code: u8 = if d < 10 { 48 + d } else { 87 + d };
    code as char
}

/// Two lowercase hexadecimal digits for each byte.
pub(crate) fn hex_string(bytes: &[u8]) -> (r: String)
    ensures
        r@ == hex(bytes@),
{
    let mut out = String::new();
    let mut i: usize = 0;
    while i < bytes.len()
        invariant
            i <= bytes@.len(),
            out@ == hex(bytes@.take(i as int)),
        decreases bytes@.len() - i,
    {
        let b = bytes[i];
        let ghost before = out@;
        out.push(hex_digit_char(b / 16));
        out.push(hex_digit_char(b % 16));
        i = i + 1;
        proof {
            let shown = hex(bytes@.take(i as int));
            assert(out@.len() == shown.len());
            assert forall|j: int| 0 <= j < shown.len() implies out@[j] == #[trigger] shown[j] by {
                if j < before.len() {
                    assert(before[j] == hex(bytes@.take(i - 1))[j]);
                    assert(bytes@.take(i - 1)[j / 2] == bytes@.take(i as int)[j / 2]);
                } else {
                    assert(j / 2 == i - 1);
                }
            }
            assert(out@ == shown);
        }
    }
    assert(bytes@.take(i as int) == bytes@);
    out
}

/// The characters with the `White_Space` property of Unicode.
pub open spec fn is_space(c: char) -> bool {
    let u = c as u32;
    ||| 0x9 <= u <= 0xd
    ||| u == 0x20
    ||| u == 0x85
    ||| u == 0xa0
    ||| u == 0x1680
    ||| 0x2000 <= u <= 0x200a
    ||| u == 0x2028
    ||| u == 0x2029
    ||| u == 0x202f
    ||| u == 0x205f
    ||| u == 0x3000
}

fn is_space_char(c: char) -> (r: bool)
    ensures
        r == is_space(c),
{
    let u = c as u32;
    (0x9 <= u && u <= 0xd) || u == 0x20 || u == 0x85 || u == 0xa0 || u == 0x1680 || (0x2000 <= u
        && u <= 0x200a) || u == 0x2028 || u == 0x2029 || u == 0x202f || u == 0x205f || u == 0x3000
}

/// `s` without leading white space.
pub open spec fn trim_front(s: Seq<char>) -> Seq<char>
    decreases s.len(),
{
    if s.len() > 0 && is_space(s[0]) {
        trim_front(s.skip(1))
    } else {
        s
    }
}

/// `s` without trailing white space.
pub open spec fn trim_back(s: Seq<char>) -> Seq<char>
    decreases s.len(),
{
    if s.len() > 0 && is_space(s.last()) {
        trim_back(s.drop_last())
    } else {
        s
    }
}

/// `s` without white space at either end.
pub open spec fn trimmed(s: Seq<char>) -> Seq<char> {
    trim_back(trim_front(s))
}

/// `s` without white space at either end.
pub(crate) fn trim<'a>(s: &'a str) -> (r: &'a str)
    ensures
        r@ == trimmed(s@),
{
    let chars = chars_of(s);
    let mut start: usize = 0;
    assert(s@.skip(0) == s@);
    while start < chars.len() && is_space_char(chars[start])
        invariant
            chars@ == s@,
            start <= chars@.len(),
            trim_front(s@) == trim_front(s@.skip(start as int)),
        decreases chars@.len() - start,
    {
        assert(s@.skip(start as int)[0] == chars@[start as int]);
        assert(s@.skip(start as int).skip(1) == s@.skip(start + 1));
        start = start + 1;
    }
    let ghost front = s@.skip(start as int);
    assert(trim_front(s@) == front) by {
        if start < chars@.len() {
            assert(front[0] == chars@[start as int]);
        }
    }
    let mut end: usize = chars.len();
    assert(s@.subrange(start as int, end as int) == front);
    while end > start && is_space_char(chars[end - 1])
        invariant
            chars@ == s@,
            start <= end <= chars@.len(),
            trim_back(front) == trim_back(s@.subrange(start as int, end as int)),
        decreases end,
    {
        let ghost cur = s@.subrange(start as int, end as int);
        assert(cur.last() == chars@[end - 1]);
        assert(cur.drop_last() == s@.subrange(start as int, end - 1));
        end = end - 1;
    }
    assert(trim_back(front) == s@.subrange(start as int, end as int)) by {
        if start < end {
            assert(s@.subrange(start as int, end as int).last() == chars@[end - 1]);
        }
    }
    s.substring_char(start, end)
}

/// The lowercase form of an ASCII capital; any other character is kept.
pub open spec fn lower(c: char) -> char {
    if 65 <= c as u32 <= 90 {
        (c as u32 + 32) as u8 as char
    } else {
        c
    }
}

/// The text with its ASCII capitals in lower case.
pub open spec fn lowered(s: Seq<char>) -> Seq<char> {
    s.map_values(|c: char| lower(c))
}

pub(crate) fn lower_char(c: char) -> (r: char)
    ensures
        r == lower(c),
{
    if 'A' <= c && c <= 'Z' {
        let code: u8 = (c as u32) as u8 + 32;
        code as char
    } else {
        c
    }
}

/// The text with its ASCII capitals in lower case.
pub(crate) fn to_lower(s: &str) -> (r: String)
    ensures
        r@ == lowered(s@),
{
    let chars = chars_of(s);
    let mut out = String::new();
    let mut i: usize = 0;
    while i < chars.len()
        invariant
            chars@ == s@,
            i <= chars@.len(),
            out@ == lowered(s@.take(i as int)),
        decreases chars@.len() - i,
    {
        out.push(lower_char(chars[i]));
        assert(s@.take(i + 1) == s@.take(i as int).push(s@[i as int]));
        assert(lowered(s@.take(i + 1)) == lowered(s@.take(i as int)).push(lower(s@[i as int])));
        i = i + 1;
    }
    assert(s@.take(i as int) == s@);
    out
}

/// Two texts one behind the other.
pub(crate) fn join2(a: &str, b: &str) -> (r: String)
    ensures
        r@ == a@ + b@,
{
    let mut out = String::new();
    out.append(a);
    out.append(b);
    assert(out@ == a@ + b@);
    out
}

/// The position of the last `c`, or -1 where there is none.
pub open spec fn last_index(s: Seq<char>, c: char) -> int
    decreases s.len(),
{
    if s.len() == 0 {
        -1
    } else if s.last() == c {
        s.len() - 1
    } else {
        last_index(s.drop_last(), c)
    }
}

proof fn lemma_last_index_over(s: Seq<char>, c: char, n: int)
    requires
        0 <= n <= s.len(),
        forall|j: int| n <= j < s.len() ==> s[j] != c,
    ensures
        last_index(s, c) == last_index(s.take(n), c),
    decreases s.len(),
{
    if n < s.len() {
        assert(s.last() == s[s.len() - 1]);
        assert(s.drop_last().take(n) == s.take(n));
        lemma_last_index_over(s.drop_last(), c, n);
    } else {
        assert(s.take(n) == s);
    }
}

/// The texts before and behind the last `c`, where there is one.
pub(crate) fn rsplit_once<'a>(s: &'a str, c: char) -> (r: Option<(&'a str, &'a str)>)
    ensures
        -1 <= last_index(s@, c) < s@.len() as int,
        r is Some <==> last_index(s@, c) >= 0,
        r is Some ==> {
            let i = last_index(s@, c);
            (r->0).0@ == s@.take(i) && (r->0).1@ == s@.skip(i + 1)
        },
{
    let chars = chars_of(s);
    let mut n: usize = chars.len();
    while n > 0 && chars[n - 1] != c
        invariant
            chars@ == s@,
            n <= chars@.len(),
            forall|j: int| n <= j < s@.len() ==> s@[j] != c,
        decreases n,
    {
        n = n - 1;
    }
    proof {
        lemma_last_index_over(s@, c, n as int);
        if n > 0 {
            assert(s@.take(n as int).last() == c);
        }
    }
    if n == 0 {
        return None;
    }
    let before = s.substring_char(0, n - 1);
    let behind = s.substring_char(n, chars.len());
    assert(before@ == s@.take(n - 1));
    assert(behind@ == s@.skip(n as int));
    Some((before, behind))
}

pub(crate) fn is_all_digits(s: &str) -> (r: bool)
    ensures
        r == all_digits(s@),
{
    let chars = chars_of(s);
    let mut i: usize = 0;
    while i < chars.len()
        invariant
            chars@ == s@,
            i <= chars@.len(),
            forall|j: int| 0 <= j < i ==> is_digit(#[trigger] s@[j]),
        decreases chars@.len() - i,
    {
        if !is_digit_char(chars[i]) {
            assert(!is_digit(s@[i as int]));
            return false;
        }
        i = i + 1;
    }
    true
}

pub(crate) fn contains_char(s: &str, c: char) -> (r: bool)
    ensures
        r == s@.contains(c),
{
    let chars = chars_of(s);
    let mut i: usize = 0;
    while i < chars.len()
        invariant
            chars@ == s@,
            i <= chars@.len(),
            forall|j: int| 0 <= j < i ==> s@[j] != c,
        decreases chars@.len() - i,
    {
        if chars[i] == c {
            assert(s@[i as int] == c);
            return true;
        }
        i = i + 1;
    }
    false
}

/// The order of texts by their characters, from left to right.
pub open spec fn text_before(a: Seq<char>, b: Seq<char>) -> bool
    decreases a.len(),
{
    if b.len() == 0 {
        false
    } else if a.len() == 0 {
        true
    } else {
        (a[0] as int) < (b[0] as int) || (a[0] == b[0] && text_before(a.skip(1), b.skip(1)))
    }
}

/// Of two different texts one comes first.
pub proof fn lemma_text_before_total(a: Seq<char>, b: Seq<char>)
    ensures
        text_before(a, b) || text_before(b, a) || a == b,
        !(text_before(a, b) && text_before(b, a)),
        !text_before(a, a),
    decreases a.len(),
{
    if a.len() > 0 {
        lemma_text_before_total(a.skip(1), a.skip(1));
    }
    if a.len() > 0 && b.len() > 0 {
        lemma_text_before_total(a.skip(1), b.skip(1));
        if a[0] == b[0] && a.skip(1) == b.skip(1) {
            assert(a == seq![a[0]] + a.skip(1));
            assert(b == seq![b[0]] + b.skip(1));
        }
    } else if a.len() == 0 && b.len() == 0 {
        assert(a == b);
    }
}

/// The order of texts is transitive.
pub proof fn lemma_text_before_transitive(a: Seq<char>, b: Seq<char>, c: Seq<char>)
    requires
        text_before(a, b),
        text_before(b, c),
    ensures
        text_before(a, c),
    decreases a.len(),
{
    if a.len() > 0 && a[0] == b[0] && b[0] == c[0] {
        lemma_text_before_transitive(a.skip(1), b.skip(1), c.skip(1));
    }
}

/// Whether `a` comes before `b` in the order of texts.
pub(crate) fn text_less(a: &str, b: &str) -> (r: bool)
    ensures
        r == text_before(a@, b@),
{
    let x = chars_of(a);
    let y = chars_of(b);
    let mut i: usize = 0;
    assert(a@.skip(0) == a@);
    assert(b@.skip(0) == b@);
    while i < x.len() && i < y.len() && x[i] == y[i]
        invariant
            x@ == a@,
            y@ == b@,
            i <= x@.len(),
            i <= y@.len(),
            text_before(a@, b@) == text_before(a@.skip(i as int), b@.skip(i as int)),
        decreases x@.len() - i,
    {
        assert(a@.skip(i as int).skip(1) == a@.skip(i + 1));
        assert(b@.skip(i as int).skip(1) == b@.skip(i + 1));
        assert(a@.skip(i as int)[0] == x@[i as int]);
        assert(b@.skip(i as int)[0] == y@[i as int]);
        i = i + 1;
    }
    if i >= y.len() {
        false
    } else if i >= x.len() {
        true
    } else {
        assert(a@.skip(i as int)[0] == x@[i as int]);
        assert(b@.skip(i as int)[0] == y@[i as int]);
        x[i] < y[i]
    }
}

/// The texts are in order and no text occurs twice.
pub open spec fn strictly_sorted(texts: Seq<Seq<char>>) -> bool {
    forall|i: int, j: int|
        0 <= i < j < texts.len() ==> text_before(#[trigger] texts[i], #[trigger] texts[j])
}

/// Adds a text to a sorted list, unless it is there.
pub(crate) fn insert_sorted(list: &mut Vec<String>, item: String)
    requires
        strictly_sorted(views(old(list)@)),
    ensures
        strictly_sorted(views(final(list)@)),
        views(final(list)@).to_set() == views(old(list)@).to_set().insert(item@),
{
    let ghost before = views(list@);
    let mut p: usize = 0;
    while p < list.len() && text_less(list[p].as_str(), item.as_str())
        invariant
            *list == *old(list),
            p <= list@.len(),
            before == views(list@),
            forall|j: int| 0 <= j < p ==> text_before(#[trigger] before[j], item@),
        decreases list@.len() - p,
    {
        assert(before[p as int] == list@[p as int]@);
        p = p + 1;
    }
    if p < list.len() && text_eq(list[p].as_str(), item.as_str()) {
        assert(before[p as int] == item@);
        assert(before.to_set().insert(item@) =~= before.to_set());
        return ;
    }
    let ghost text = item@;
    list.insert(p, item);
    proof {
        let after = views(list@);
        assert(after =~= before.insert(p as int, text));
        assert forall|i: int, j: int| 0 <= i < j < after.len() implies text_before(
            #[trigger] after[i],
            #[trigger] after[j],
        ) by {
            if p < before.len() {
                assert(before[p as int] == old(list)@[p as int]@);
                lemma_text_before_total(before[p as int], text);
            }
            if i < p && j > p {
                assert(after[j] == before[j - 1]);
                assert(after[i] == before[i]);
            } else if i == p {
                assert(after[j] == before[j - 1]);
                if j - 1 > p {
                    lemma_text_before_transitive(text, before[p as int], before[j - 1]);
                }
            } else if i > p {
                assert(after[i] == before[i - 1]);
                assert(after[j] == before[j - 1]);
            } else if j < p {
                assert(after[i] == before[i]);
                assert(after[j] == before[j]);
            } else {
                assert(after[i] == before[i]);
            }
        }
        assert(after.to_set() =~= before.to_set().insert(text)) by {
            assert forall|x: Seq<char>| after.contains(x) implies before.to_set().insert(
                text,
            ).contains(x) by {
                let k = choose|k: int| 0 <= k < after.len() && after[k] == x;
                if k < p {
                    assert(before[k] == x);
                } else if k > p {
                    assert(before[k - 1] == x);
                }
            }
            assert forall|x: Seq<char>| before.to_set().insert(text).contains(
                x,
            ) implies after.contains(x) by {
                if x == text {
                    assert(after[p as int] == x);
                } else {
                    let k = choose|k: int| 0 <= k < before.len() && before[k] == x;
                    if k < p {
                        assert(after[k] == x);
                    } else {
                        assert(after[k + 1] == x);
                    }
                }
            }
        }
    }
}

proof fn lemma_trim_front(s: Seq<char>) -> (n: int)
    ensures
        0 <= n <= s.len(),
        trim_front(s) == s.skip(n),
        forall|j: int| 0 <= j < n ==> is_space(#[trigger] s[j]),
        n < s.len() ==> !is_space(s[n]),
    decreases s.len(),
{
    if s.len() > 0 && is_space(s[0]) {
        let n = lemma_trim_front(s.skip(1));
        assert(s.skip(1).skip(n) =~= s.skip(n + 1));
        assert forall|j: int| 0 <= j < n + 1 implies is_space(#[trigger] s[j]) by {
            if j > 0 {
                assert(s.skip(1)[j - 1] == s[j]);
            }
        }
        n + 1
    } else {
        assert(s.skip(0) =~= s);
        0
    }
}

proof fn lemma_trim_back(s: Seq<char>) -> (n: int)
    ensures
        0 <= n <= s.len(),
        trim_back(s) == s.take(n),
        forall|j: int| n <= j < s.len() ==> is_space(#[trigger] s[j]),
        n > 0 ==> !is_space(s[n - 1]),
    decreases s.len(),
{
    if s.len() > 0 && is_space(s.last()) {
        let front = s.drop_last();
        let n = lemma_trim_back(front);
        assert(front.take(n) =~= s.take(n));
        assert forall|j: int| n <= j < s.len() implies is_space(#[trigger] s[j]) by {
            if j < front.len() {
                assert(front[j] == s[j]);
            }
        }
        n
    } else {
        assert(s.take(s.len() as int) =~= s);
        s.len() as int
    }
}

/// Trimming takes the spaces around a text away, and nothing else.
pub proof fn law_trimming_takes_the_spaces_around_away(
    before: Seq<char>,
    text: Seq<char>,
    after: Seq<char>,
)
    requires
        forall|i: int| 0 <= i < before.len() ==> is_space(#[trigger] before[i]),
        forall|i: int| 0 <= i < after.len() ==> is_space(#[trigger] after[i]),
        text.len() > 0 ==> !is_space(text[0]) && !is_space(text.last()),
    ensures
        trimmed(before + text + after) == text,
{
    let all = before + text + after;
    let n = lemma_trim_front(all);
    let b = before.len() as int;
    let t = text.len() as int;
    if t > 0 {
        assert(all[b] == text[0]);
        if n > b {
            assert(is_space(all[b]));
        }
        if n < b {
            assert(all[n] == before[n]);
        }
        assert(n == b);
        let rest = all.skip(n);
        assert(rest =~= text + after);
        let m = lemma_trim_back(rest);
        assert(rest[t - 1] == text.last());
        if m > t {
            assert(rest[m - 1] == after[m - 1 - t]);
        }
        if m < t {
            assert(is_space(rest[t - 1]));
        }
        assert(rest.take(m) =~= text);
    } else {
        if n < all.len() {
            if n < b {
                assert(all[n] == before[n]);
            } else {
                assert(all[n] == after[n - b]);
            }
        }
        let rest = all.skip(n);
        let m = lemma_trim_back(rest);
        assert(rest.len() == 0);
        assert(rest.take(m) =~= text);
    }
}

/// Among the characters of ASCII, the space and the five control characters from the tab to
/// the carriage return are spaces.
pub proof fn law_ascii_spaces(c: char)
    requires
        (c as u32) < 128,
    ensures
        is_space(c) <==> c == ' ' || c == '\t' || c == '\n' || c == '\r' || c as u32 == 11
            || c as u32 == 12,
{
}

/// Lowering replaces the capital letters of ASCII by the small ones and keeps everything else.
pub proof fn law_lowering_replaces_capitals(s: Seq<char>, i: int)
    requires
        0 <= i < s.len(),
    ensures
        lowered(s).len() == s.len(),
        'A' as u32 <= s[i] as u32 <= 'Z' as u32 ==> lowered(s)[i] as u32 - 'a' as u32 == s[i] as u32
            - 'A' as u32,
        !('A' as u32 <= s[i] as u32 <= 'Z' as u32) ==> lowered(s)[i] == s[i],
        lowered(lowered(s)) == lowered(s),
{
    assert forall|j: int| 0 <= j < s.len() implies #[trigger] lowered(lowered(s))[j] == lowered(
        s,
    )[j] by {
        assert(lowered(s)[j] == lower(s[j]));
        assert(lowered(lowered(s))[j] == lower(lower(s[j])));
    }
    assert(lowered(lowered(s)) =~= lowered(s));
    assert(lowered(s)[i] == lower(s[i]));
}

/// A text splits where the separator is: what comes before it is the first part.
pub proof fn law_texts_split_at_the_separator(first: Seq<char>, rest: Seq<char>, separator: char)
    requires
        !first.contains(separator),
    ensures
        split_on(first, separator) == seq![first],
        split_on(first + seq![separator] + rest, separator) == seq![first] + split_on(
            rest,
            separator,
        ),
{
    lemma_first_index(first, separator);
    let all = first + seq![separator] + rest;
    lemma_first_index(all, separator);
    let i = first_index(all, separator);
    let n = first.len() as int;
    if i < n {
        assert(all[i] == first[i]);
        assert(first.contains(separator));
    }
    assert(all[n] == separator);
    assert(i == n);
    assert(all.take(n) =~= first);
    assert(all.skip(n + 1) =~= rest);
}

/// A number is written in digits, without zeros before them, and the digits stand for it.
pub proof fn law_numbers_are_written_in_digits(n: nat)
    ensures
        decimal(n).len() > 0,
        forall|i: int|
            0 <= i < decimal(n).len() ==> '0' as u32 <= (#[trigger] decimal(n)[i]) as u32
                <= '9' as u32,
        n > 0 ==> decimal(n)[0] != '0',
        n < 10 ==> decimal(n).len() == 1 && decimal(n)[0] as u32 == '0' as u32 + n,
        n >= 10 ==> decimal(n) == decimal(n / 10) + decimal(n % 10),
    decreases n,
{
    lemma_decimal_digits(n);
    assert forall|i: int| 0 <= i < decimal(n).len() implies '0' as u32 <= (
    #[trigger] decimal(n)[i]) as u32 <= '9' as u32 by {
        assert(is_digit(decimal(n)[i]));
    }
    if n >= 10 {
        law_numbers_are_written_in_digits(n / 10);
        assert(decimal(n) =~= decimal(n / 10) + decimal(n % 10));
        assert(decimal(n)[0] == decimal(n / 10)[0]);
    }
}

/// Bytes are written in two hexadecimal digits each, in small letters, and no two texts of
/// bytes are written in the same way.
pub proof fn law_bytes_are_written_in_hexadecimal_digits(a: Seq<u8>, b: Seq<u8>)
    ensures
        hex(a).len() == 2 * a.len(),
        forall|i: int|
            0 <= i < hex(a).len() ==> {
                let c = (#[trigger] hex(a)[i]) as u32;
                '0' as u32 <= c <= '9' as u32 || 'a' as u32 <= c <= 'f' as u32
            },
        hex(a) == hex(b) ==> a == b,
        hex(a + b) == hex(a) + hex(b),
{
    if hex(a) == hex(b) {
        assert(hex(a).len() == 2 * a.len());
        assert(hex(b).len() == 2 * b.len());
        assert forall|i: int| 0 <= i < a.len() implies a[i] == b[i] by {
            assert(hex(a)[2 * i] == hex_digit(a[i] as int / 16));
            assert(hex(b)[2 * i] == hex_digit(b[i] as int / 16));
            assert(hex(a)[2 * i + 1] == hex_digit(a[i] as int % 16));
            assert(hex(b)[2 * i + 1] == hex_digit(b[i] as int % 16));
        }
        assert(a =~= b);
    }
    assert forall|i: int| 0 <= i < hex(a + b).len() implies #[trigger] hex(a + b)[i] == (hex(a)
        + hex(b))[i] by {
        if i >= 2 * a.len() {
            let k = i - 2 * a.len();
            assert(k / 2 == i / 2 - a.len());
            assert(k % 2 == i % 2);
        }
    }
    assert(hex(a + b) =~= hex(a) + hex(b));
}

/// The last position of a character in a text.
pub proof fn lemma_last_index(s: Seq<char>, c: char)
    ensures
        -1 <= last_index(s, c) < s.len() as int,
        last_index(s, c) >= 0 ==> s[last_index(s, c)] == c,
        forall|j: int| last_index(s, c) < j < s.len() ==> s[j] != c,
    decreases s.len(),
{
    if s.len() > 0 && s.last() != c {
        lemma_last_index(s.drop_last(), c);
        assert forall|j: int| last_index(s, c) < j < s.len() implies s[j] != c by {
            if j < s.len() - 1 {
                assert(s.drop_last()[j] == s[j]);
            }
        }
    }
}

/// The high half of a byte is written first, and the digits from ten on are letters.
pub proof fn law_bytes_are_written_high_half_first(byte: u8)
    ensures
        ({
            let high: int = byte as int / 16;
            let low: int = byte as int % 16;
            let text = hex(seq![byte]);
            &&& high < 10 ==> text[0] as u32 == '0' as u32 + high
            &&& high >= 10 ==> text[0] as u32 == 'a' as u32 + high - 10
            &&& low < 10 ==> text[1] as u32 == '0' as u32 + low
            &&& low >= 10 ==> text[1] as u32 == 'a' as u32 + low - 10
        }),
{
}

/// Texts are ordered by their first characters that differ, and a text comes before every
/// longer one that begins with it.
pub proof fn law_texts_are_ordered_by_their_first_difference(
    front: Seq<char>,
    c: char,
    d: char,
    rest: Seq<char>,
    tail: Seq<char>,
)
    ensures
        (c as u32) < (d as u32) ==> text_before(front + seq![c] + rest, front + seq![d] + tail),
        (c as u32) < (d as u32) ==> !text_before(front + seq![d] + tail, front + seq![c] + rest),
        text_before(front, front + seq![c] + rest),
        !text_before(front + seq![c] + rest, front),
        !text_before(front, front),
    decreases front.len(),
{
    if front.len() > 0 {
        let less = front.skip(1);
        law_texts_are_ordered_by_their_first_difference(less, c, d, rest, tail);
        assert((front + seq![c] + rest).skip(1) =~= less + seq![c] + rest);
        assert((front + seq![d] + tail).skip(1) =~= less + seq![d] + tail);
    }
}

/// Digits are read from left to right, each ten times as much as the one behind it. A plus sign
/// before them does not matter; anything else does, and so does a number that is too large.
pub proof fn law_digits_are_read_by_their_place(s: Seq<char>, c: char, n: nat, max: nat)
    ensures
        decimal_value(Seq::<char>::empty()) == 0,
        48 <= c as u32 <= 57 ==> decimal_value(s.push(c)) == 10 * decimal_value(s) + (c as u32
            - 48),
        n <= max ==> unsigned_value(decimal(n), max) == Some(n),
        n > max ==> unsigned_value(decimal(n), max) is None,
        s.len() > 0 && s[0] != '+' ==> unsigned_value(seq!['+'] + s, max) == unsigned_value(s, max),
        s.len() == 0 ==> unsigned_value(s, max) is None,
        unsigned_value(s, max) matches Some(value) ==> value <= max && forall|i: int|
            0 < i < s.len() ==> 48 <= (#[trigger] s[i]) as u32 <= 57,
{
    assert(s.push(c).drop_last() =~= s);
    lemma_decimal_digits(n);
    lemma_decimal_reads_back(n, n);
    assert(is_digit(decimal(n)[0]));
    assert(decimal_value(decimal(n)) == n);
    if s.len() > 0 && s[0] != '+' {
        assert((seq!['+'] + s).skip(1) =~= s);
    }
    if let Some(value) = unsigned_value(s, max) {
        let digits = unsigned_digits(s);
        assert forall|i: int| 0 < i < s.len() implies 48 <= (#[trigger] s[i]) as u32 <= 57 by {
            if s[0] == '+' {
                assert(is_digit(digits[i - 1]));
            } else {
                assert(is_digit(digits[i]));
            }
        }
    }
}

} // verus!
