//! Searching sequences: the first place of an element, byte for byte equality.

use vstd::prelude::*;

verus! {

/// The first index in `s` at or after `from` that holds `x`, or `s.len()`.
pub open spec fn find_from<T>(s: Seq<T>, x: T, from: int) -> int
    decreases s.len() - from,
{
    if from >= s.len() {
        s.len() as int
    } else if s[from] == x {
        from
    } else {
        find_from(s, x, from + 1)
    }
}

/// What `find_from` promises: the place holds `x` or is the end, and nothing
/// before it holds `x`.
pub proof fn lemma_find_from<T>(s: Seq<T>, x: T, from: int)
    requires
        0 <= from <= s.len(),
    ensures
        from <= find_from(s, x, from) <= s.len(),
        find_from(s, x, from) < s.len() ==> s[find_from(s, x, from)] == x,
        forall|i: int| from <= i < find_from(s, x, from) ==> s[i] != x,
    decreases s.len() - from,
{
    if from < s.len() && s[from] != x {
        lemma_find_from(s, x, from + 1);
    }
}

/// The two properties of `lemma_find_from` determine the place.
pub proof fn lemma_find_is<T>(s: Seq<T>, x: T, from: int, at: int)
    requires
        0 <= from <= at <= s.len(),
        at < s.len() ==> s[at] == x,
        forall|i: int| from <= i < at ==> s[i] != x,
    ensures
        find_from(s, x, from) == at,
    decreases at - from,
{
    if from < at {
        lemma_find_is(s, x, from + 1, at);
    }
}

/// Index of the first `x` in `bytes`, or its length.
pub fn find_byte(bytes: &[u8], x: u8) -> (at: usize)
    ensures
        at == find_from(bytes@, x, 0),
        at <= bytes@.len(),
{
    let mut i: usize = 0;
    while i < bytes.len()
        invariant
            i <= bytes@.len(),
            find_from(bytes@, x, 0) == find_from(bytes@, x, i as int),
        decreases bytes@.len() - i,
    {
        if bytes[i] == x {
            return i;
        }
        i += 1;
    }
    i
}

/// Index of the first `x` in `chars`, or its length.
pub fn find_char(chars: &[char], x: char) -> (at: usize)
    ensures
        at == find_from(chars@, x, 0),
        at <= chars@.len(),
{
    let mut i: usize = 0;
    while i < chars.len()
        invariant
            i <= chars@.len(),
            find_from(chars@, x, 0) == find_from(chars@, x, i as int),
        decreases chars@.len() - i,
    {
        if chars[i] == x {
            return i;
        }
        i += 1;
    }
    i
}

/// Whether two byte strings are the same.
pub fn same_bytes(a: &[u8], b: &[u8]) -> (same: bool)
    ensures
        same == (a@ == b@),
{
    if a.len() != b.len() {
        return false;
    }
    let mut i: usize = 0;
    while i < a.len()
        invariant
            i <= a@.len(),
            a@.len() == b@.len(),
            forall|j: int| 0 <= j < i ==> a@[j] == b@[j],
        decreases a@.len() - i,
    {
        if a[i] != b[i] {
            return false;
        }
        i += 1;
    }
    assert(a@ =~= b@);
    true
}

/// A copy of some bytes.
pub fn to_vec(bytes: &[u8]) -> (r: Vec<u8>)
    ensures
        r@ == bytes@,
{
    let mut out: Vec<u8> = Vec::new();
    out.extend_from_slice(bytes);
    assert(out@ =~= bytes@);
    out
}

/// The first index in `b` at or after `from` where CR LF CR LF stands.
pub open spec fn blank_line_from(b: Seq<u8>, from: int) -> Option<int>
    decreases b.len() - from,
{
    if from + 4 > b.len() {
        None
    } else if b[from] == 13 && b[from + 1] == 10 && b[from + 2] == 13 && b[from + 3] == 10 {
        Some(from)
    } else {
        blank_line_from(b, from + 1)
    }
}

/// Where the header block of an HTTP message ends: the first CR LF CR LF.
pub fn find_header_end(buf: &[u8]) -> (r: Option<usize>)
    ensures
        r is Some == blank_line_from(buf@, 0) is Some,
        r matches Some(i) ==> i == blank_line_from(buf@, 0)->0 && i + 4 <= buf@.len()
            && buf@.len() <= usize::MAX,
{
    let mut i: usize = 0;
    while i < buf.len() && buf.len() - i >= 4
        invariant
            i <= buf@.len(),
            blank_line_from(buf@, 0) == blank_line_from(buf@, i as int),
        decreases buf@.len() - i,
    {
        if buf[i] == 13 && buf[i + 1] == 10 && buf[i + 2] == 13 && buf[i + 3] == 10 {
            return Some(i);
        }
        i += 1;
    }
    None
}

/// The header block ends at the first CR LF CR LF, wherever that is.
pub proof fn header_blocks_end_at_the_blank_line(b: Seq<u8>, from: int)
    requires
        0 <= from,
    ensures
        blank_line_from(b, from) matches Some(i) ==> from <= i && i + 4 <= b.len() && b.subrange(
            i,
            i + 4,
        ) == seq![0x0du8, 0x0a, 0x0d, 0x0a] && forall|j: int|
            from <= j < i ==> #[trigger] b.subrange(j, j + 4) != seq![0x0du8, 0x0a, 0x0d, 0x0a],
        blank_line_from(b, from) is None ==> forall|j: int|
            from <= j <= b.len() - 4 ==> #[trigger] b.subrange(j, j + 4) != seq![
                0x0du8,
                0x0a,
                0x0d,
                0x0a,
            ],
    decreases b.len() - from,
{
    if from + 4 <= b.len() {
        let here = b.subrange(from, from + 4);
        if b[from] == 13 && b[from + 1] == 10 && b[from + 2] == 13 && b[from + 3] == 10 {
            assert(here =~= seq![0x0du8, 0x0a, 0x0d, 0x0a]);
        } else {
            header_blocks_end_at_the_blank_line(b, from + 1);
            assert(here[0] == b[from] && here[1] == b[from + 1] && here[2] == b[from + 2] && here[3]
                == b[from + 3]);
        }
    }
}

/// What follows a header block does not move its end.
pub proof fn header_blocks_stay(b: Seq<u8>, more: Seq<u8>, from: int)
    requires
        0 <= from,
        blank_line_from(b, from) is Some,
    ensures
        blank_line_from(b + more, from) == blank_line_from(b, from),
    decreases b.len() - from,
{
    let all = b + more;
    assert(all[from] == b[from] && all[from + 1] == b[from + 1] && all[from + 2] == b[from + 2]
        && all[from + 3] == b[from + 3]);
    if !(b[from] == 13 && b[from + 1] == 10 && b[from + 2] == 13 && b[from + 3] == 10) {
        header_blocks_stay(b, more, from + 1);
    }
}

} // verus!
