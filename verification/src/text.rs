//! Text as a sequence of characters: trimming, splitting, ASCII case, decimal
//! numbers, and the step between text and UTF-8 bytes.

use crate::scan::{find_char, find_from, lemma_find_from, lemma_find_is};
use vstd::prelude::*;
use vstd::utf8::{encode_utf8, valid_utf8};

verus! {

/// The string that holds these characters.
///
/// Trusted: `String::from_iter` over the characters keeps them, in order.
#[verifier::external_body]
pub(crate) fn string_of(chars: &[char]) -> (r: String)
    ensures
        r@ == chars@,
{
    String::from_iter(chars)
}

/// The text that UTF-8 bytes encode, `None` where they are not UTF-8.
///
/// Trusted: `std::str::from_utf8` succeeds exactly on valid UTF-8, and what it
/// returns has the given bytes as its encoding.
#[verifier::external_body]
pub(crate) fn utf8_text(bytes: &[u8]) -> (r: Option<&str>)
    ensures
        r is Some == valid_utf8(bytes@),
        r matches Some(s) ==> encode_utf8(s@) == bytes@,
{
    std::str::from_utf8(bytes).ok()
}

/// The text that `String::from_utf8_lossy` makes of bytes.
pub uninterp spec fn utf8_lossy(bytes: Seq<u8>) -> Seq<char>;

/// The text of some bytes, with replacement characters where they are not UTF-8.
///
/// Trusted: `String::from_utf8_lossy` depends on the bytes alone, and gives back
/// the text that valid UTF-8 encodes.
#[verifier::external_body]
pub(crate) fn lossy_text(bytes: &[u8]) -> (r: String)
    ensures
        r@ == utf8_lossy(bytes@),
        valid_utf8(bytes@) ==> encode_utf8(r@) == bytes@,
{
    String::from_utf8_lossy(bytes).into_owned()
}

/// The characters of a string.
pub fn chars_of(s: &str) -> (r: Vec<char>)
    ensures
        r@ == s@,
{
    let mut out: Vec<char> = Vec::new();
    for c in it: s.chars()
        invariant
            it.seq() == s@,
            out@ == it.seq().take(it.index() as int),
    {
        out.push(c);
        assert(it.seq().take(it.index() as int + 1) =~= it.seq().take(it.index() as int).push(c));
    }
    out
}

/// The sequences that a vector of slices shows.
pub open spec fn pieces(v: Seq<&[char]>) -> Seq<Seq<char>> {
    v.map_values(|s: &[char]| s@)
}

/// A character with the Unicode property `White_Space`.
pub open spec fn is_white_space(c: char) -> bool {
    let u = c as u32;
    ||| 0x9 <= u <= 0xd
    ||| u == 0x20
    ||| u == 0x85
    ||| u == 0xa0
    ||| u == 0x1680
    ||| 0x2000 <= u <= 0x200a
    ||| u == 0x2028
    ||| u == 0x2029
    ||| u == 0x202f
    ||| u == 0x205f
    ||| u == 0x3000
}

pub(crate) fn white_space(c: char) -> (r: bool)
    ensures
        r == is_white_space(c),
{
    let u: u32 = c as u32;
    (0x9 <= u && u <= 0xd) || u == 0x20 || u == 0x85 || u == 0xa0 || u == 0x1680 || (0x2000 <= u
        && u <= 0x200a) || u == 0x2028 || u == 0x2029 || u == 0x202f || u == 0x205f || u == 0x3000
}

/// `s` without the white space at its front.
pub open spec fn trimmed_start(s: Seq<char>) -> Seq<char>
    decreases s.len(),
{
    if s.len() > 0 && is_white_space(s[0]) {
        trimmed_start(s.skip(1))
    } else {
        s
    }
}

/// `s` without the white space at its back.
pub open spec fn trimmed_end(s: Seq<char>) -> Seq<char>
    decreases s.len(),
{
    if s.len() > 0 && is_white_space(s.last()) {
        trimmed_end(s.drop_last())
    } else {
        s
    }
}

/// `s` without the white space around it.
pub open spec fn trimmed(s: Seq<char>) -> Seq<char> {
    trimmed_end(trimmed_start(s))
}

/// `s` without the white space at its front.
pub fn trim_start<'a>(s: &'a [char]) -> (r: &'a [char])
    ensures
        r@ == trimmed_start(s@),
{
    let mut i: usize = 0;
    assert(s@.skip(0) =~= s@);
    while i < s.len() && white_space(s[i])
        invariant
            i <= s@.len(),
            trimmed_start(s@) == trimmed_start(s@.skip(i as int)),
        decreases s@.len() - i,
    {
        assert(s@.skip(i as int).skip(1) =~= s@.skip(i + 1));
        i += 1;
    }
    let r = &s[i..s.len()];
    assert(r@ =~= s@.skip(i as int));
    r
}

/// `s` without the white space around it.
pub fn trim<'a>(s: &'a [char]) -> (r: &'a [char])
    ensures
        r@ == trimmed(s@),
{
    let front = trim_start(s);
    let mut n: usize = front.len();
    assert(front@.take(n as int) =~= front@);
    while n > 0 && white_space(front[n - 1])
        invariant
            n <= front@.len(),
            trimmed_end(front@) == trimmed_end(front@.take(n as int)),
        decreases n,
    {
        assert(front@.take(n as int).drop_last() =~= front@.take(n - 1));
        n -= 1;
    }
    let r = &front[0..n];
    assert(r@ =~= front@.take(n as int));
    r
}

/// `c` in lower case, where it is an ASCII letter.
pub open spec fn ascii_lower(c: char) -> char {
    if 'A' <= c <= 'Z' {
        (c as u8 + 32) as u8 as char
    } else {
        c
    }
}

/// Whether two texts are the same but for the case of ASCII letters.
pub open spec fn same_ignoring_case(a: Seq<char>, b: Seq<char>) -> bool {
    a.len() == b.len() && forall|i: int|
        0 <= i < a.len() ==> ascii_lower(#[trigger] a[i]) == ascii_lower(b[i])
}

fn lower(c: char) -> (r: char)
    ensures
        r == ascii_lower(c),
{
    if 'A' <= c && c <= 'Z' {
        (c as u8 + 32) as char
    } else {
        c
    }
}

/// Whether two texts are the same but for the case of ASCII letters.
pub fn eq_ignore_case(a: &[char], b: &str) -> (r: bool)
    ensures
        r == same_ignoring_case(a@, b@),
{
    let other = chars_of(b);
    if a.len() != other.len() {
        return false;
    }
    let mut i: usize = 0;
    while i < a.len()
        invariant
            i <= a@.len(),
            a@.len() == other@.len(),
            other@ == b@,
            forall|j: int| 0 <= j < i ==> ascii_lower(#[trigger] a@[j]) == ascii_lower(other@[j]),
        decreases a@.len() - i,
    {
        if lower(a[i]) != lower(other[i]) {
            return false;
        }
        i += 1;
    }
    true
}

/// Whether `a` holds exactly the text `b`.
pub fn same_text(a: &[char], b: &str) -> (r: bool)
    ensures
        r == (a@ == b@),
{
    let other = chars_of(b);
    a.len() == other.len() && begins_with(a, b)
}

/// Whether `a` begins with `b`.
pub fn begins_with(a: &[char], b: &str) -> (r: bool)
    ensures
        r == b@.is_prefix_of(a@),
        b@.len() == a@.len() ==> r == (a@ == b@),
        r ==> a@ =~= b@ + a@.skip(b@.len() as int),
{
    let other = chars_of(b);
    if a.len() < other.len() {
        return false;
    }
    let mut i: usize = 0;
    while i < other.len()
        invariant
            i <= other@.len() <= a@.len(),
            other@ == b@,
            forall|j: int| 0 <= j < i ==> a@[j] == other@[j],
        decreases other@.len() - i,
    {
        if a[i] != other[i] {
            return false;
        }
        i += 1;
    }
    assert(a@.subrange(0, b@.len() as int) =~= b@);
    assert(a@.len() == b@.len() ==> a@ =~= b@);
    true
}

/// The pieces of `s` between the places where `sep` stands.
pub open spec fn split_at_char(s: Seq<char>, sep: char) -> Seq<Seq<char>>
    decreases s.len(),
    via split_shrinks
{
    let i = find_from(s, sep, 0);
    if i < s.len() {
        seq![s.take(i)] + split_at_char(s.skip(i + 1), sep)
    } else {
        seq![s]
    }
}

#[via_fn]
proof fn split_shrinks(s: Seq<char>, sep: char) {
    lemma_find_from(s, sep, 0);
}

/// The pieces of `s` between the places where `sep` stands.
pub fn split_char<'a>(s: &'a [char], sep: char) -> (r: Vec<&'a [char]>)
    ensures
        pieces(r@) == split_at_char(s@, sep),
{
    let mut out: Vec<&'a [char]> = Vec::new();
    let mut rest = s;
    assert(pieces(out@) + split_at_char(rest@, sep) =~= split_at_char(s@, sep));
    loop
        invariant
            pieces(out@) + split_at_char(rest@, sep) == split_at_char(s@, sep),
        decreases rest@.len(),
    {
        let i = find_char(rest, sep);
        let ghost before = out@;
        if i == rest.len() {
            out.push(rest);
            assert(pieces(out@) =~= pieces(before) + seq![rest@]);
            return out;
        }
        let piece = &rest[0..i];
        let next = &rest[i + 1..rest.len()];
        out.push(piece);
        proof {
            assert(piece@ =~= rest@.take(i as int));
            assert(next@ =~= rest@.skip(i + 1));
            assert(pieces(out@) =~= pieces(before) + seq![piece@]);
            assert(pieces(out@) + split_at_char(next@, sep) =~= pieces(before) + (seq![piece@]
                + split_at_char(next@, sep)));
        }
        rest = next;
    }
}

/// The first index of CR LF in `s` at or after `from`, or `s.len()`.
pub open spec fn find_crlf(s: Seq<char>, from: int) -> int
    decreases s.len() - from,
{
    if from + 1 >= s.len() {
        s.len() as int
    } else if s[from] == '\r' && s[from + 1] == '\n' {
        from
    } else {
        find_crlf(s, from + 1)
    }
}

proof fn lemma_find_crlf(s: Seq<char>, from: int)
    requires
        0 <= from <= s.len(),
    ensures
        from <= find_crlf(s, from) <= s.len(),
        find_crlf(s, from) < s.len() ==> find_crlf(s, from) + 2 <= s.len(),
    decreases s.len() - from,
{
    if from + 1 < s.len() {
        lemma_find_crlf(s, from + 1);
    }
}

/// The pieces of `s` between the places where CR LF stands.
pub open spec fn split_at_crlf(s: Seq<char>) -> Seq<Seq<char>>
    decreases s.len(),
    via split_crlf_shrinks
{
    let i = find_crlf(s, 0);
    if i < s.len() {
        seq![s.take(i)] + split_at_crlf(s.skip(i + 2))
    } else {
        seq![s]
    }
}

#[via_fn]
proof fn split_crlf_shrinks(s: Seq<char>) {
    lemma_find_crlf(s, 0);
}

/// The pieces of `s` between the places where CR LF stands.
pub fn split_crlf<'a>(s: &'a [char]) -> (r: Vec<&'a [char]>)
    ensures
        pieces(r@) == split_at_crlf(s@),
        r@.len() > 0,
{
    let mut out: Vec<&'a [char]> = Vec::new();
    let mut rest = s;
    assert(pieces(out@) + split_at_crlf(rest@) =~= split_at_crlf(s@));
    loop
        invariant
            pieces(out@) + split_at_crlf(rest@) == split_at_crlf(s@),
        decreases rest@.len(),
    {
        let mut i: usize = 0;
        while i < rest.len() && !(i + 1 < rest.len() && rest[i] == '\r' && rest[i + 1] == '\n')
            invariant
                i <= rest@.len(),
                i < rest@.len() ==> find_crlf(rest@, 0) == find_crlf(rest@, i as int),
                i == rest@.len() ==> find_crlf(rest@, 0) == i,
            decreases rest@.len() - i,
        {
            i += 1;
        }
        let ghost before = out@;
        proof {
            lemma_find_crlf(rest@, 0);
        }
        if i == rest.len() {
            out.push(rest);
            assert(pieces(out@) =~= pieces(before) + seq![rest@]);
            return out;
        }
        let piece = &rest[0..i];
        let next = &rest[i + 2..rest.len()];
        out.push(piece);
        proof {
            assert(piece@ =~= rest@.take(i as int));
            assert(next@ =~= rest@.skip(i + 2));
            assert(pieces(out@) =~= pieces(before) + seq![piece@]);
            assert(pieces(out@) + split_at_crlf(next@) =~= pieces(before) + (seq![piece@]
                + split_at_crlf(next@)));
        }
        rest = next;
    }
}

/// `s` without one CR at its end.
pub open spec fn without_cr(s: Seq<char>) -> Seq<char> {
    if s.len() > 0 && s.last() == '\r' {
        s.drop_last()
    } else {
        s
    }
}

/// The lines of `s`: each ends in LF or CR LF, the last one perhaps in neither.
pub open spec fn lines_of(s: Seq<char>) -> Seq<Seq<char>>
    decreases s.len(),
    via lines_shrink
{
    let i = find_from(s, '\n', 0);
    if s.len() == 0 {
        Seq::empty()
    } else if i < s.len() {
        seq![without_cr(s.take(i))] + lines_of(s.skip(i + 1))
    } else {
        seq![s]
    }
}

#[via_fn]
proof fn lines_shrink(s: Seq<char>) {
    lemma_find_from(s, '\n', 0);
}

/// The lines of `s`: each ends in LF or CR LF, the last one perhaps in neither.
pub fn lines<'a>(s: &'a [char]) -> (r: Vec<&'a [char]>)
    ensures
        pieces(r@) == lines_of(s@),
{
    let mut out: Vec<&'a [char]> = Vec::new();
    let mut rest = s;
    assert(pieces(out@) + lines_of(rest@) =~= lines_of(s@));
    while rest.len() > 0
        invariant
            pieces(out@) + lines_of(rest@) == lines_of(s@),
        decreases rest@.len(),
    {
        let i = find_char(rest, '\n');
        let ghost before = out@;
        if i == rest.len() {
            out.push(rest);
            assert(pieces(out@) =~= pieces(before) + seq![rest@]);
            return out;
        }
        let n: usize = if i > 0 && rest[i - 1] == '\r' { i - 1 } else { i };
        let piece = &rest[0..n];
        let next = &rest[i + 1..rest.len()];
        out.push(piece);
        proof {
            assert(piece@ =~= without_cr(rest@.take(i as int)));
            assert(next@ =~= rest@.skip(i + 1));
            assert(pieces(out@) =~= pieces(before) + seq![piece@]);
            assert(pieces(out@) + lines_of(next@) =~= pieces(before) + (seq![piece@] + lines_of(
                next@,
            )));
        }
        rest = next;
    }
    assert(lines_of(rest@) =~= Seq::<Seq<char>>::empty());
    assert(pieces(out@) + lines_of(rest@) =~= pieces(out@));
    out
}

/// The length of the run of characters other than white space at the front.
pub open spec fn word_len(s: Seq<char>) -> nat
    decreases s.len(),
{
    if s.len() == 0 || is_white_space(s[0]) {
        0
    } else {
        1 + word_len(s.skip(1))
    }
}

/// The first word of `s`: the white space before it left out, up to the next.
pub open spec fn first_word(s: Seq<char>) -> Seq<char> {
    let t = trimmed_start(s);
    t.take(word_len(t) as int)
}

/// What follows the first word of `s`.
pub open spec fn after_first_word(s: Seq<char>) -> Seq<char> {
    let t = trimmed_start(s);
    t.skip(word_len(t) as int)
}

/// The first word of `s` and what follows it.
pub fn take_word<'a>(s: &'a [char]) -> (r: (&'a [char], &'a [char]))
    ensures
        r.0@ == first_word(s@),
        r.1@ == after_first_word(s@),
{
    let t = trim_start(s);
    let mut i: usize = 0;
    assert(t@.skip(0) =~= t@);
    while i < t.len() && !white_space(t[i])
        invariant
            i <= t@.len(),
            word_len(t@) == i + word_len(t@.skip(i as int)),
        decreases t@.len() - i,
    {
        assert(t@.skip(i as int).skip(1) =~= t@.skip(i + 1));
        i += 1;
    }
    let word = &t[0..i];
    let rest = &t[i..t.len()];
    assert(word@ =~= t@.take(i as int));
    assert(rest@ =~= t@.skip(i as int));
    (word, rest)
}

/// The decimal digit for a value below ten.
pub open spec fn digit(d: int) -> char {
    (48 + d) as u8 as char
}

/// A number in decimal.
pub open spec fn decimal(n: nat) -> Seq<char>
    decreases n,
{
    if n < 10 {
        seq![digit(n as int)]
    } else {
        decimal(n / 10).push(digit((n % 10) as int))
    }
}

/// A number in decimal.
pub fn decimal_chars(n: u64) -> (r: Vec<char>)
    ensures
        r@ == decimal(n as nat),
    decreases n,
{
    let mut out: Vec<char> = if n < 10 { Vec::new() } else { decimal_chars(n / 10) };
    let d: u8 = (n % 10) as u8;
    out.push((48 + d) as char);
    assert(n < 10 ==> out@ =~= seq![digit(n as int)]);
    out
}

/// A number in decimal.
pub fn decimal_text(n: u64) -> (r: String)
    ensures
        r@ == decimal(n as nat),
{
    string_of(decimal_chars(n).as_slice())
}

/// Whether `s` is made of decimal digits, at least one.
pub open spec fn is_digits(s: Seq<char>) -> bool {
    s.len() > 0 && forall|i: int| 0 <= i < s.len() ==> '0' <= #[trigger] s[i] <= '9'
}

/// The number that decimal digits write.
pub open spec fn digits_value(s: Seq<char>) -> nat
    decreases s.len(),
{
    if s.len() == 0 {
        0
    } else {
        digits_value(s.drop_last()) * 10 + (s.last() as u8 - 48) as nat
    }
}

/// The number that `s` writes in decimal, perhaps after one plus sign, where it
/// is at most `max`.
pub open spec fn parsed_number(s: Seq<char>, max: nat) -> Option<nat> {
    let digits = if s.len() > 0 && s[0] == '+' { s.skip(1) } else { s };
    if is_digits(digits) && digits_value(digits) <= max {
        Some(digits_value(digits))
    } else {
        None
    }
}

proof fn lemma_digits_value_grows(s: Seq<char>, n: int)
    requires
        0 <= n <= s.len(),
        is_digits(s),
    ensures
        digits_value(s.take(n)) <= digits_value(s),
    decreases s.len() - n,
{
    if n == s.len() {
        assert(s.take(n) =~= s);
    } else if s.len() > 1 {
        lemma_digits_value_grows(s.drop_last(), n);
        assert(s.drop_last().take(n) =~= s.take(n));
    } else {
        assert(s.take(n) =~= Seq::<char>::empty());
    }
}

/// The number that `s` writes in decimal, perhaps after one plus sign, where it
/// is at most `max`.
pub fn parse_number(s: &[char], max: u64) -> (r: Option<u64>)
    ensures
        r == (match parsed_number(s@, max as nat) {
            Some(n) => Some(n as u64),
            None => None,
        }),
        parsed_number(s@, max as nat) matches Some(n) ==> n <= max,
{
    let start: usize = if s.len() > 0 && s[0] == '+' { 1 } else { 0 };
    let digits = &s[start..s.len()];
    assert(digits@ =~= if s@.len() > 0 && s@[0] == '+' { s@.skip(1) } else { s@ });
    let mut i: usize = 0;
    while i < digits.len()
        invariant
            i <= digits@.len(),
            digits@ == if s@.len() > 0 && s@[0] == '+' { s@.skip(1) } else { s@ },
            forall|j: int| 0 <= j < i ==> '0' <= #[trigger] digits@[j] <= '9',
        decreases digits@.len() - i,
    {
        if digits[i] < '0' || '9' < digits[i] {
            return None;
        }
        i += 1;
    }
    if digits.len() == 0 {
        return None;
    }
    let mut value: u64 = 0;
    let mut k: usize = 0;
    while k < digits.len()
        invariant
            k <= digits@.len(),
            digits@ == if s@.len() > 0 && s@[0] == '+' { s@.skip(1) } else { s@ },
            is_digits(digits@),
            value == digits_value(digits@.take(k as int)),
            value <= max,
        decreases digits@.len() - k,
    {
        proof {
            let next = digits@.take(k + 1);
            assert(next.drop_last() =~= digits@.take(k as int));
            assert(next.last() == digits@[k as int]);
            lemma_digits_value_grows(digits@, k + 1);
        }
        let d: u64 = (digits[k] as u8 - 48) as u64;
        if value > max / 10 || d > max - value * 10 {
            return None;
        }
        value = value * 10 + d;
        k += 1;
    }
    assert(digits@.take(k as int) =~= digits@);
    Some(value)
}

/// Whether the line is a header line: whether it holds a colon.
pub open spec fn has_colon(line: Seq<char>) -> bool {
    find_from(line, ':', 0) < line.len()
}

/// What stands before the first colon of a header line.
pub open spec fn field_name(line: Seq<char>) -> Seq<char> {
    line.take(find_from(line, ':', 0))
}

/// What stands after the first colon of a header line, without the white space
/// around it.
pub open spec fn field_value(line: Seq<char>) -> Seq<char> {
    trimmed(line.skip(find_from(line, ':', 0) + 1))
}

/// The name and the value of a header line, `None` where it has no colon.
pub fn split_field<'a>(line: &'a [char]) -> (r: Option<(&'a [char], &'a [char])>)
    ensures
        r is Some == has_colon(line@),
        r matches Some((name, value)) ==> name@ == field_name(line@) && value@ == field_value(line@),
{
    let i = find_char(line, ':');
    if i == line.len() {
        return None;
    }
    let name = &line[0..i];
    let value = &line[i + 1..line.len()];
    assert(name@ =~= field_name(line@));
    assert(value@ =~= line@.skip(i + 1));
    Some((name, trim(value)))
}

/// How many bytes a character takes in UTF-8.
pub open spec fn utf8_len(c: char) -> nat {
    let u = c as u32;
    if u < 0x80 {
        1
    } else if u < 0x800 {
        2
    } else if u < 0x10000 {
        3
    } else {
        4
    }
}

/// How many bytes text takes in UTF-8.
pub open spec fn utf8_size(s: Seq<char>) -> nat
    decreases s.len(),
{
    if s.len() == 0 {
        0
    } else {
        utf8_len(s[0]) + utf8_size(s.skip(1))
    }
}

/// The size of text is the length of its encoding.
pub proof fn size_is_encoded_length(s: Seq<char>)
    ensures
        encode_utf8(s).len() == utf8_size(s),
    decreases s.len(),
{
    if s.len() > 0 {
        assert(s.drop_first() =~= s.skip(1));
        size_is_encoded_length(s.skip(1));
        vstd::utf8::char_is_scalar(s[0]);
    }
}

/// How many characters at the front of `s` fit in `n` bytes of UTF-8.
pub open spec fn chars_fitting(s: Seq<char>, n: nat) -> nat
    decreases s.len(),
{
    if s.len() == 0 || utf8_len(s[0]) > n {
        0
    } else {
        1 + chars_fitting(s.skip(1), (n - utf8_len(s[0])) as nat)
    }
}

/// What fits in `n` bytes takes at most `n` bytes, and the next character, if
/// there is one, would not fit.
pub proof fn fitting_characters_fit(s: Seq<char>, n: nat)
    ensures
        chars_fitting(s, n) <= s.len(),
        utf8_size(s.take(chars_fitting(s, n) as int)) <= n,
        chars_fitting(s, n) < s.len() ==> utf8_size(s.take(chars_fitting(s, n) as int + 1)) > n,
    decreases s.len(),
{
    let k = chars_fitting(s, n) as int;
    if s.len() > 0 && utf8_len(s[0]) <= n {
        let rest = s.skip(1);
        fitting_characters_fit(rest, (n - utf8_len(s[0])) as nat);
        assert(s.take(k).skip(1) =~= rest.take(k - 1));
        if k < s.len() {
            assert(s.take(k + 1).skip(1) =~= rest.take(k));
        }
    } else if s.len() > 0 {
        assert(s.take(1).skip(1) =~= Seq::<char>::empty());
        assert(s.take(1)[0] == s[0]);
    }
}

/// How many characters at the front of `s` fit in `n` bytes of UTF-8.
pub fn count_fitting(s: &[char], n: usize) -> (k: usize)
    ensures
        k == chars_fitting(s@, n as nat),
        k <= s@.len(),
{
    let mut i: usize = 0;
    let mut left: usize = n;
    assert(s@.skip(0) =~= s@);
    while i < s.len()
        invariant
            i <= s@.len(),
            chars_fitting(s@, n as nat) == i + chars_fitting(s@.skip(i as int), left as nat),
        decreases s@.len() - i,
    {
        let size = char_size(s[i]);
        if size > left {
            return i;
        }
        assert(s@.skip(i as int).skip(1) =~= s@.skip(i + 1));
        i += 1;
        left -= size;
    }
    i
}

fn char_size(c: char) -> (n: usize)
    ensures
        n == utf8_len(c),
{
    let u: u32 = c as u32;
    if u < 0x80 {
        1
    } else if u < 0x800 {
        2
    } else if u < 0x10000 {
        3
    } else {
        4
    }
}

/// How many characters at the front of `s` take exactly `n` bytes in UTF-8, if
/// some number of them does.
pub open spec fn chars_in_bytes(s: Seq<char>, n: nat) -> Option<nat>
    decreases s.len(),
{
    if n == 0 {
        Some(0)
    } else if s.len() == 0 || utf8_len(s[0]) > n {
        None
    } else {
        match chars_in_bytes(s.skip(1), (n - utf8_len(s[0])) as nat) {
            Some(k) => Some(k + 1),
            None => None,
        }
    }
}

/// The characters at the front of `s` that take exactly `n` bytes in UTF-8.
pub fn front_bytes<'a>(s: &'a [char], n: usize) -> (r: Option<&'a [char]>)
    ensures
        r is Some == chars_in_bytes(s@, n as nat) is Some,
        r matches Some(front) ==> front@ == s@.take(chars_in_bytes(s@, n as nat)->0 as int),
{
    let mut i: usize = 0;
    let mut left: usize = n;
    assert(s@.skip(0) =~= s@);
    while left > 0
        invariant
            i <= s@.len(),
            chars_in_bytes(s@, n as nat) is Some == chars_in_bytes(
                s@.skip(i as int),
                left as nat,
            ) is Some,
            chars_in_bytes(s@, n as nat) is Some ==> chars_in_bytes(s@, n as nat)->0 == i
                + chars_in_bytes(s@.skip(i as int), left as nat)->0,
        decreases left,
    {
        if i >= s.len() {
            return None;
        }
        let size = char_size(s[i]);
        if size > left {
            return None;
        }
        assert(s@.skip(i as int).skip(1) =~= s@.skip(i + 1));
        i += 1;
        left -= size;
    }
    let front = &s[0..i];
    assert(front@ =~= s@.take(i as int));
    Some(front)
}

/// Whether `s` lies within one line: no CR and no LF in it.
pub open spec fn one_line(s: Seq<char>) -> bool {
    forall|i: int| 0 <= i < s.len() ==> #[trigger] s[i] != '\r' && s[i] != '\n'
}

/// Lines, each with CR LF after it.
pub open spec fn joined(lines: Seq<Seq<char>>) -> Seq<char>
    decreases lines.len(),
{
    if lines.len() == 0 {
        Seq::empty()
    } else {
        joined(lines.drop_last()) + lines.last() + "\r\n"@
    }
}

proof fn lemma_find_crlf_is(s: Seq<char>, from: int, at: int)
    requires
        0 <= from <= at,
        at + 2 <= s.len(),
        s[at] == '\r',
        s[at + 1] == '\n',
        forall|i: int| from <= i < at ==> s[i] != '\r',
    ensures
        find_crlf(s, from) == at,
    decreases at - from,
{
    if from < at {
        lemma_find_crlf_is(s, from + 1, at);
    }
}

/// Splitting text at a line that holds no CR.
proof fn lemma_split_first_line(line: Seq<char>, rest: Seq<char>)
    requires
        one_line(line),
    ensures
        split_at_crlf(line + "\r\n"@ + rest) == seq![line] + split_at_crlf(rest),
{
    reveal_strlit("\r\n");
    let s = line + "\r\n"@ + rest;
    let n = line.len() as int;
    assert(s[n] == '\r' && s[n + 1] == '\n');
    assert forall|i: int| 0 <= i < n implies s[i] != '\r' by {
        assert(s[i] == line[i]);
    }
    lemma_find_crlf_is(s, 0, n);
    assert(s.take(n) =~= line);
    assert(s.skip(n + 2) =~= rest);
}

/// Lines that hold neither CR nor LF come apart as they were put together.
pub proof fn joined_lines_split_again(lines: Seq<Seq<char>>, rest: Seq<char>)
    requires
        forall|i: int| 0 <= i < lines.len() ==> one_line(#[trigger] lines[i]),
    ensures
        split_at_crlf(joined(lines) + rest) == lines + split_at_crlf(rest),
    decreases lines.len(),
{
    if lines.len() == 0 {
        assert(joined(lines) + rest =~= rest);
        assert(lines + split_at_crlf(rest) =~= split_at_crlf(rest));
    } else {
        let last = lines.last();
        let front = lines.drop_last();
        assert forall|i: int| 0 <= i < front.len() implies one_line(#[trigger] front[i]) by {
            assert(front[i] == lines[i]);
        }
        joined_lines_split_again(front, last + "\r\n"@ + rest);
        lemma_split_first_line(last, rest);
        assert(joined(front) + (last + "\r\n"@ + rest) =~= joined(lines) + rest);
        assert(front + (seq![last] + split_at_crlf(rest)) =~= lines + split_at_crlf(rest));
    }
}

/// White space is what Unicode calls so, as far as a character can be it.
pub proof fn white_space_is_that_of_unicode(c: char)
    ensures
        is_white_space(c) <==> ('\u{9}' <= c <= '\u{d}') || c == ' ' || c == '\u{85}' || c
            == '\u{a0}' || c == '\u{1680}' || ('\u{2000}' <= c <= '\u{200a}') || c == '\u{2028}' || c
            == '\u{2029}' || c == '\u{202f}' || c == '\u{205f}' || c == '\u{3000}',
{
}

/// All white space.
pub open spec fn is_blank(s: Seq<char>) -> bool {
    forall|i: int| 0 <= i < s.len() ==> is_white_space(#[trigger] s[i])
}

proof fn lemma_trimmed_start(front: Seq<char>, rest: Seq<char>)
    requires
        is_blank(front),
        rest.len() > 0 ==> !is_white_space(rest[0]),
    ensures
        trimmed_start(front + rest) == rest,
    decreases front.len(),
{
    if front.len() == 0 {
        assert(front + rest =~= rest);
    } else {
        assert((front + rest)[0] == front[0]);
        assert((front + rest).skip(1) =~= front.skip(1) + rest);
        assert(is_blank(front.skip(1))) by {
            assert forall|i: int| 0 <= i < front.skip(1).len() implies is_white_space(
                #[trigger] front.skip(1)[i],
            ) by {
                assert(front.skip(1)[i] == front[i + 1]);
            }
        }
        lemma_trimmed_start(front.skip(1), rest);
    }
}

proof fn lemma_trimmed_end(text: Seq<char>, back: Seq<char>)
    requires
        is_blank(back),
        text.len() > 0 ==> !is_white_space(text.last()),
    ensures
        trimmed_end(text + back) == text,
    decreases back.len(),
{
    if back.len() == 0 {
        assert(text + back =~= text);
    } else {
        assert((text + back).last() == back.last());
        assert((text + back).drop_last() =~= text + back.drop_last());
        assert(is_white_space(back[back.len() - 1]));
        assert(is_blank(back.drop_last())) by {
            assert forall|i: int| 0 <= i < back.drop_last().len() implies is_white_space(
                #[trigger] back.drop_last()[i],
            ) by {
                assert(back.drop_last()[i] == back[i]);
            }
        }
        lemma_trimmed_end(text, back.drop_last());
    }
}

/// Trimming takes the white space off both ends and nothing else.
pub proof fn trimming_keeps_the_middle(front: Seq<char>, text: Seq<char>, back: Seq<char>)
    requires
        is_blank(front),
        is_blank(back),
        text.len() > 0,
        !is_white_space(text[0]),
        !is_white_space(text.last()),
    ensures
        trimmed(front + text + back) == text,
        trimmed(front) == Seq::<char>::empty(),
        trimmed(text) == text,
{
    let none = Seq::<char>::empty();
    assert(front + text + back =~= front + (text + back));
    assert((text + back)[0] == text[0]);
    lemma_trimmed_start(front, text + back);
    lemma_trimmed_end(text, back);
    lemma_trimmed_start(front, none);
    assert(front + none =~= front);
    lemma_trimmed_start(none, text);
    lemma_trimmed_end(text, none);
    assert(none + text =~= text);
    assert(text + none =~= text);
}

/// Two texts are the same but for case where each pair of characters is the same, or is
/// the same ASCII letter in the two cases.
pub proof fn case_is_that_of_ascii_letters(a: Seq<char>, b: Seq<char>)
    ensures
        same_ignoring_case(a, b) <==> a.len() == b.len() && forall|i: int|
            0 <= i < a.len() ==> #[trigger] a[i] == b[i] || ('A' <= a[i] <= 'Z' && b[i] as u32
                == a[i] as u32 + 32) || ('A' <= b[i] <= 'Z' && a[i] as u32 == b[i] as u32 + 32),
        same_ignoring_case(a, a),
        same_ignoring_case(a, b) == same_ignoring_case(b, a),
{
    if a.len() == b.len() {
        assert forall|i: int| 0 <= i < a.len() implies ((#[trigger] a[i] == b[i] || ('A' <= a[i]
            <= 'Z' && b[i] as u32 == a[i] as u32 + 32) || ('A' <= b[i] <= 'Z' && a[i] as u32
            == b[i] as u32 + 32)) <==> ascii_lower(a[i]) == ascii_lower(b[i])) by {
            lemma_lower(a[i], b[i]);
        }
    }
    assert(same_ignoring_case(a, b) ==> same_ignoring_case(b, a)) by {
        if same_ignoring_case(a, b) {
            assert forall|i: int| 0 <= i < b.len() implies ascii_lower(#[trigger] b[i])
                == ascii_lower(a[i]) by {
                assert(ascii_lower(a[i]) == ascii_lower(b[i]));
            }
        }
    }
    assert(same_ignoring_case(b, a) ==> same_ignoring_case(a, b)) by {
        if same_ignoring_case(b, a) {
            assert forall|i: int| 0 <= i < a.len() implies ascii_lower(#[trigger] a[i])
                == ascii_lower(b[i]) by {
                assert(ascii_lower(b[i]) == ascii_lower(a[i]));
            }
        }
    }
}

proof fn lemma_lower(x: char, y: char)
    ensures
        ascii_lower(x) == ascii_lower(y) <==> x == y || ('A' <= x <= 'Z' && y as u32 == x as u32
            + 32) || ('A' <= y <= 'Z' && x as u32 == y as u32 + 32),
{
    lemma_lower_code(x);
    lemma_lower_code(y);
    assert(ascii_lower(x) == ascii_lower(y) <==> ascii_lower(x) as u32 == ascii_lower(y) as u32);
    assert(x == y <==> x as u32 == y as u32);
}

proof fn lemma_lower_code(x: char)
    ensures
        ascii_lower(x) as u32 == if 'A' <= x <= 'Z' {
            x as u32 + 32
        } else {
            x as u32 as int
        },
{
}

proof fn lemma_digit(d: int)
    requires
        0 <= d < 10,
    ensures
        digit(d) == "0123456789"@[d],
        '0' <= digit(d) <= '9',
        digit(d) as u8 - 48 == d,
{
    reveal_strlit("0123456789");
}

/// A number is written in decimal digits, the highest first, without leading zeros, and
/// is read back as that number where it is not beyond what is asked for.
pub proof fn numbers_are_read_back(n: nat, max: nat)
    ensures
        n < 10 ==> decimal(n) == seq!["0123456789"@[n as int]],
        n >= 10 ==> decimal(n) == decimal(n / 10).push("0123456789"@[(n % 10) as int]),
        decimal(n).len() > 0,
        decimal(n)[0] == '0' <==> n == 0,
        n <= max ==> parsed_number(decimal(n), max) == Some(n),
        n <= max ==> parsed_number(seq!['+'] + decimal(n), max) == Some(n),
        n > max ==> parsed_number(decimal(n), max) is None,
    decreases n,
{
    lemma_decimal_value(n);
    lemma_digit((n % 10) as int);
    assert((seq!['+'] + decimal(n)).skip(1) =~= decimal(n));
    reveal_strlit("0123456789");
}

proof fn lemma_decimal_value(n: nat)
    ensures
        is_digits(decimal(n)),
        digits_value(decimal(n)) == n,
        decimal(n)[0] == '0' <==> n == 0,
        decimal(n)[0] != '+',
    decreases n,
{
    lemma_digit((n % 10) as int);
    if n >= 10 {
        lemma_decimal_value(n / 10);
        let front = decimal(n / 10);
        assert(decimal(n).drop_last() =~= front);
        assert forall|i: int| 0 <= i < decimal(n).len() implies '0' <= #[trigger] decimal(n)[i]
            <= '9' by {
            if i < front.len() {
                assert(decimal(n)[i] == front[i]);
            }
        }
    } else {
        assert(decimal(n).drop_last() =~= Seq::<char>::empty());
        assert(digits_value(Seq::<char>::empty()) == 0);
    }
}

/// Only digits, with at most a plus sign before them, are a number; each digit counts
/// ten times what the same digit after it does.
pub proof fn only_digits_are_a_number(s: Seq<char>, d: int, max: nat)
    requires
        0 <= d < 10,
    ensures
        parsed_number(s, max) is Some ==> s.len() > 0 && forall|i: int|
            0 <= i < s.len() ==> ('0' <= #[trigger] s[i] <= '9') || (i == 0 && s[0] == '+' && s.len()
                > 1),
        is_digits(s) ==> digits_value(s.push("0123456789"@[d])) == 10 * digits_value(s) + d,
        is_digits(s) && digits_value(s) > max ==> parsed_number(s, max) is None,
        is_digits(s) && digits_value(s) <= max ==> parsed_number(s, max) == Some(digits_value(s)),
        digits_value(seq!["0123456789"@[d]]) == d,
{
    lemma_digit(d);
    let c = "0123456789"@[d];
    assert(s.push(c).drop_last() =~= s);
    assert(seq![c].drop_last() =~= Seq::<char>::empty());
    assert(digits_value(Seq::<char>::empty()) == 0);
    if parsed_number(s, max) is Some {
        let digits = if s.len() > 0 && s[0] == '+' { s.skip(1) } else { s };
        assert forall|i: int| 0 <= i < s.len() implies ('0' <= #[trigger] s[i] <= '9') || (i == 0
            && s[0] == '+' && s.len() > 1) by {
            if s[0] == '+' {
                if i > 0 {
                    assert(digits[i - 1] == s[i]);
                }
            } else {
                assert(digits[i] == s[i]);
            }
        }
    }
}

/// A line ends at its line feed, with or without a carriage return before that.
pub proof fn lines_end_at_line_feeds(line: Seq<char>, rest: Seq<char>)
    requires
        forall|i: int| 0 <= i < line.len() ==> #[trigger] line[i] != '\n',
        line.len() > 0 ==> line.last() != '\r',
    ensures
        lines_of(line + seq!['\r', '\n'] + rest) == seq![line] + lines_of(rest),
        lines_of(line + seq!['\n'] + rest) == seq![line] + lines_of(rest),
        line.len() > 0 ==> lines_of(line) == seq![line],
        lines_of(Seq::empty()) == Seq::<Seq<char>>::empty(),
{
    let with_cr = line + seq!['\r', '\n'] + rest;
    let n = line.len() as int;
    assert forall|i: int| 0 <= i < n + 1 implies with_cr[i] != '\n' by {
        if i < n {
            assert(with_cr[i] == line[i]);
        }
    }
    lemma_find_is(with_cr, '\n', 0, n + 1);
    assert(with_cr.take(n + 1) =~= line.push('\r'));
    assert(line.push('\r').drop_last() =~= line);
    assert(with_cr.skip(n + 2) =~= rest);
    let plain = line + seq!['\n'] + rest;
    assert forall|i: int| 0 <= i < n implies plain[i] != '\n' by {
        assert(plain[i] == line[i]);
    }
    lemma_find_is(plain, '\n', 0, n);
    assert(plain.take(n) =~= line);
    assert(plain.skip(n + 1) =~= rest);
    lemma_find_is(line, '\n', 0, n);
}

/// The lines of lines that were joined are those lines.
pub proof fn joined_lines_are_read_back(lines: Seq<Seq<char>>, rest: Seq<char>)
    requires
        forall|i: int| 0 <= i < lines.len() ==> one_line(#[trigger] lines[i]),
    ensures
        lines_of(joined(lines) + rest) == lines + lines_of(rest),
    decreases lines.len(),
{
    if lines.len() == 0 {
        assert(joined(lines) + rest =~= rest);
        assert(lines + lines_of(rest) =~= lines_of(rest));
    } else {
        let front = lines.drop_last();
        let line = lines.last();
        reveal_strlit("\r\n");
        let tail = line + seq!['\r', '\n'] + rest;
        assert("\r\n"@ =~= seq!['\r', '\n']);
        assert(joined(lines) + rest =~= joined(front) + tail);
        assert forall|i: int| 0 <= i < front.len() implies one_line(#[trigger] front[i]) by {
            assert(front[i] == lines[i]);
        }
        joined_lines_are_read_back(front, tail);
        assert(one_line(lines[lines.len() - 1]));
        lines_end_at_line_feeds(line, rest);
        assert(front + (seq![line] + lines_of(rest)) =~= lines + lines_of(rest));
    }
}

/// Joining ends each line with CR LF.
pub proof fn joining_ends_each_line(lines: Seq<Seq<char>>, line: Seq<char>)
    ensures
        joined(lines.push(line)) == joined(lines) + line + seq!['\r', '\n'],
        joined(Seq::empty()) == Seq::<char>::empty(),
{
    reveal_strlit("\r\n");
    assert("\r\n"@ =~= seq!['\r', '\n']);
    assert(lines.push(line).drop_last() =~= lines);
}

/// No white space in it.
pub open spec fn is_word(s: Seq<char>) -> bool {
    s.len() > 0 && forall|i: int| 0 <= i < s.len() ==> !is_white_space(#[trigger] s[i])
}

proof fn lemma_word_len(word: Seq<char>, rest: Seq<char>)
    requires
        forall|i: int| 0 <= i < word.len() ==> !is_white_space(#[trigger] word[i]),
        rest.len() > 0 ==> is_white_space(rest[0]),
    ensures
        word_len(word + rest) == word.len(),
    decreases word.len(),
{
    if word.len() == 0 {
        assert(word + rest =~= rest);
    } else {
        assert((word + rest)[0] == word[0]);
        assert((word + rest).skip(1) =~= word.skip(1) + rest);
        assert forall|i: int| 0 <= i < word.skip(1).len() implies !is_white_space(
            #[trigger] word.skip(1)[i],
        ) by {
            assert(word.skip(1)[i] == word[i + 1]);
        }
        lemma_word_len(word.skip(1), rest);
    }
}

/// The first word of a text is what stands between white space.
pub proof fn words_stand_between_white_space(front: Seq<char>, word: Seq<char>, rest: Seq<char>)
    requires
        is_blank(front),
        is_word(word),
        rest.len() > 0 ==> is_white_space(rest[0]),
    ensures
        first_word(front + word + rest) == word,
        after_first_word(front + word + rest) == rest,
{
    assert(front + word + rest =~= front + (word + rest));
    assert((word + rest)[0] == word[0]);
    lemma_trimmed_start(front, word + rest);
    lemma_word_len(word, rest);
    assert((word + rest).take(word.len() as int) =~= word);
    assert((word + rest).skip(word.len() as int) =~= rest);
}

/// A header field is split at its first colon.
pub proof fn fields_are_split_at_the_colon(name: Seq<char>, value: Seq<char>)
    requires
        forall|i: int| 0 <= i < name.len() ==> #[trigger] name[i] != ':',
    ensures
        has_colon(name + seq![':'] + value),
        field_name(name + seq![':'] + value) == name,
        field_value(name + seq![':'] + value) == trimmed(value),
        !has_colon(name),
{
    let line = name + seq![':'] + value;
    let n = name.len() as int;
    assert forall|i: int| 0 <= i < n implies line[i] != ':' by {
        assert(line[i] == name[i]);
    }
    lemma_find_is(line, ':', 0, n);
    assert(line.take(n) =~= name);
    assert(line.skip(n + 1) =~= value);
    lemma_find_is(name, ':', 0, n);
}

/// A text is split at each separator, and the separators are gone.
pub proof fn texts_are_split_at_the_separator(part: Seq<char>, rest: Seq<char>, sep: char)
    requires
        forall|i: int| 0 <= i < part.len() ==> #[trigger] part[i] != sep,
    ensures
        split_at_char(part + seq![sep] + rest, sep) == seq![part] + split_at_char(rest, sep),
        split_at_char(part, sep) == seq![part],
{
    let all = part + seq![sep] + rest;
    let n = part.len() as int;
    assert forall|i: int| 0 <= i < n implies all[i] != sep by {
        assert(all[i] == part[i]);
    }
    lemma_find_is(all, sep, 0, n);
    assert(all.take(n) =~= part);
    assert(all.skip(n + 1) =~= rest);
    lemma_find_is(part, sep, 0, n);
}

/// The characters that fill some bytes exactly take just that many.
pub proof fn filling_characters_fill(s: Seq<char>, n: nat)
    ensures
        chars_in_bytes(s, n) matches Some(k) ==> k <= s.len() && utf8_size(s.take(k as int)) == n,
        chars_in_bytes(s, n) is None ==> forall|k: int|
            0 <= k <= s.len() ==> utf8_size(#[trigger] s.take(k)) != n,
    decreases s.len(),
{
    if n == 0 {
        assert(s.take(0) =~= Seq::<char>::empty());
    } else if s.len() == 0 || utf8_len(s[0]) > n {
        assert forall|k: int| 0 <= k <= s.len() implies utf8_size(#[trigger] s.take(k)) != n by {
            if k > 0 {
                assert(s.take(k)[0] == s[0]);
            }
        }
    } else {
        let rest = s.skip(1);
        filling_characters_fill(rest, (n - utf8_len(s[0])) as nat);
        match chars_in_bytes(rest, (n - utf8_len(s[0])) as nat) {
            Some(k) => {
                assert(s.take(k + 1int)[0] == s[0]);
                assert(s.take(k + 1int).skip(1) =~= rest.take(k as int));
            },
            None => {
                assert forall|k: int| 0 <= k <= s.len() implies utf8_size(#[trigger] s.take(k))
                    != n by {
                    if k > 0 {
                        assert(s.take(k)[0] == s[0]);
                        assert(s.take(k).skip(1) =~= rest.take(k - 1));
                    }
                }
            },
        }
    }
}

/// Pieces of text are viewed one by one, as they are.
pub proof fn pieces_are_viewed_in_order(v: Seq<&[char]>)
    ensures
        pieces(v).len() == v.len(),
        forall|i: int| 0 <= i < v.len() ==> pieces(v)[i] == (#[trigger] v[i])@,
{
}

proof fn lemma_crlf_is(s: Seq<char>, from: int, at: int)
    requires
        0 <= from <= at,
        at + 1 < s.len() ==> s[at] == '\r' && s[at + 1] == '\n',
        at + 1 < s.len() || at == s.len(),
        forall|i: int| from <= i < at && i + 1 < s.len() ==> !(#[trigger] s[i] == '\r' && s[i + 1] == '\n'),
    ensures
        find_crlf(s, from) == at,
    decreases at - from,
{
    if from < at && from + 1 < s.len() {
        assert(!(s[from] == '\r' && s[from + 1] == '\n'));
        lemma_crlf_is(s, from + 1, at);
    }
}

/// A text is split where CR LF stands, and nowhere else: neither alone ends a line.
pub proof fn texts_are_split_at_crlf_alone(part: Seq<char>, rest: Seq<char>)
    requires
        forall|i: int|
            0 <= i && i + 1 < part.len() ==> !(#[trigger] part[i] == '\r' && part[i + 1] == '\n'),
    ensures
        split_at_crlf(part) == seq![part],
        split_at_crlf(part + seq!['\r', '\n'] + rest) == seq![part] + split_at_crlf(rest),
{
    let n = part.len() as int;
    let all = part + seq!['\r', '\n'] + rest;
    lemma_crlf_is(part, 0, n);
    assert forall|i: int| 0 <= i < n && i + 1 < all.len() implies !(#[trigger] all[i] == '\r' && all[i
        + 1] == '\n') by {
        assert(all[i] == part[i]);
        if i + 1 < n {
            assert(all[i + 1] == part[i + 1]);
        }
    }
    lemma_crlf_is(all, 0, n);
    assert(all.take(n) =~= part);
    assert(all.skip(n + 2) =~= rest);
}

/// A line is what stands before its line feed, without the one carriage return that may
/// stand there; the last line needs no line feed.
pub proof fn every_line_ends_at_its_line_feed(line: Seq<char>, rest: Seq<char>)
    requires
        forall|i: int| 0 <= i < line.len() ==> #[trigger] line[i] != '\n',
    ensures
        lines_of(line + seq!['\n'] + rest) == seq![
            if line.len() > 0 && line.last() == '\r' {
                line.drop_last()
            } else {
                line
            },
        ] + lines_of(rest),
        line.len() > 0 ==> lines_of(line) == seq![line],
{
    let n = line.len() as int;
    let all = line + seq!['\n'] + rest;
    assert forall|i: int| 0 <= i < n implies all[i] != '\n' by {
        assert(all[i] == line[i]);
    }
    lemma_find_is(all, '\n', 0, n);
    assert(all.take(n) =~= line);
    assert(all.skip(n + 1) =~= rest);
    lemma_find_is(line, '\n', 0, n);
}

/// A plus sign before digits changes nothing, and white space alone holds no word.
pub proof fn signs_and_blanks_say_nothing(digits: Seq<char>, blank: Seq<char>, max: nat)
    requires
        is_digits(digits),
        is_blank(blank),
    ensures
        parsed_number(seq!['+'] + digits, max) == parsed_number(digits, max),
        first_word(blank) == Seq::<char>::empty(),
        parsed_number(Seq::empty(), max) is None,
{
    assert((seq!['+'] + digits).skip(1) =~= digits);
    assert('0' <= digits[0] <= '9');
    let none = Seq::<char>::empty();
    lemma_trimmed_start(blank, none);
    assert(blank + none =~= blank);
    assert(none.take(0) =~= none);
}

} // verus!
