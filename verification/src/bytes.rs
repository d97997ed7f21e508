//! Byte-sequence search and copy primitives that the file-format code is built on.
use vstd::prelude::*;

verus! {

/// `p` occurs in `s` starting at byte `i`.
pub open spec fn occurs_at(s: Seq<u8>, p: Seq<u8>, i: int) -> bool {
    0 <= i && i + p.len() <= s.len() && s.subrange(i, i + p.len()) == p
}

/// `s` begins with `p`.
pub open spec fn starts_with(s: Seq<u8>, p: Seq<u8>) -> bool {
    occurs_at(s, p, 0)
}

/// The first position at or after `from` where `p` occurs in `s`.
pub open spec fn find_from(s: Seq<u8>, p: Seq<u8>, from: int) -> Option<int>
    decreases s.len() - from,
{
    if from < 0 || from + p.len() > s.len() {
        None
    } else if occurs_at(s, p, from) {
        Some(from)
    } else if from >= s.len() {
        None
    } else {
        find_from(s, p, from + 1)
    }
}

/// The position of the first `'\n'` at or after `from`, or the end of `s`.
pub open spec fn newline_or_end(s: Seq<u8>, from: int) -> int {
    match find_from(s, seq![10u8], from) {
        Some(k) => k,
        None => s.len() as int,
    }
}

/// The first position at or after `i` that does not hold `'\n'` or `'\r'`.
pub open spec fn skip_newlines(s: Seq<u8>, i: int) -> int
    decreases s.len() - i,
{
    if 0 <= i < s.len() && (s[i] == 10u8 || s[i] == 13u8) {
        skip_newlines(s, i + 1)
    } else {
        i
    }
}

/// What `find_from` returns is an occurrence, and none comes earlier.
pub proof fn lemma_find_from(s: Seq<u8>, p: Seq<u8>, from: int)
    requires
        0 <= from,
    ensures
        find_from(s, p, from) matches Some(k) ==> from <= k && occurs_at(s, p, k) && forall|j: int|
            from <= j < k ==> !occurs_at(s, p, j),
        find_from(s, p, from) is None ==> forall|j: int| from <= j ==> !occurs_at(s, p, j),
    decreases s.len() - from,
{
    if from < 0 || from + p.len() > s.len() {
    } else if occurs_at(s, p, from) {
    } else if from >= s.len() {
        assert(p.len() == 0);
        assert(s.subrange(from, from + p.len()) =~= p);
    } else {
        lemma_find_from(s, p, from + 1);
    }
}

/// Searching from any point before the first occurrence finds that occurrence.
pub proof fn lemma_find_from_skip(s: Seq<u8>, p: Seq<u8>, from: int, mid: int)
    requires
        0 <= from <= mid,
        forall|j: int| from <= j < mid ==> !occurs_at(s, p, j),
    ensures
        find_from(s, p, from) == find_from(s, p, mid),
    decreases mid - from,
{
    if from < mid {
        if from + p.len() > s.len() {
            lemma_find_from(s, p, mid);
        } else {
            assert(from < s.len() || p.len() == 0);
            if p.len() == 0 {
                assert(s.subrange(from, from) =~= p);
            }
            lemma_find_from_skip(s, p, from + 1, mid);
        }
    }
}

/// `skip_newlines` moves forward over newline bytes only.
pub proof fn lemma_skip_newlines(s: Seq<u8>, i: int)
    requires
        0 <= i,
    ensures
        i <= skip_newlines(s, i),
        skip_newlines(s, i) <= s.len() || skip_newlines(s, i) == i,
        forall|j: int| i <= j < skip_newlines(s, i) ==> (s[j] == 10u8 || s[j] == 13u8),
        skip_newlines(s, i) < s.len() ==> !(s[skip_newlines(s, i)] == 10u8 || s[skip_newlines(
            s,
            i,
        )] == 13u8),
    decreases s.len() - i,
{
    if 0 <= i < s.len() && (s[i] == 10u8 || s[i] == 13u8) {
        lemma_skip_newlines(s, i + 1);
    }
}

/// Whether `p` occurs in `s` at byte `i`.
pub fn matches_at(s: &[u8], p: &[u8], i: usize) -> (r: bool)
    ensures
        r == occurs_at(s@, p@, i as int),
{
    if i > s.len() || p.len() > s.len() - i {
        return false;
    }
    let mut k: usize = 0;
    while k < p.len()
        invariant
            i + p@.len() <= s@.len(),
            s@.len() == s.len(),
            p@.len() == p.len(),
            0 <= k <= p@.len(),
            forall|j: int| 0 <= j < k ==> s@[i + j] == p@[j],
        decreases p@.len() - k,
    {
        if s[i + k] != p[k] {
            assert(s@.subrange(i as int, i + p@.len())[k as int] != p@[k as int]);
            return false;
        }
        k = k + 1;
    }
    assert(s@.subrange(i as int, i + p@.len()) =~= p@);
    true
}

/// The first occurrence of `p` in `s` at or after `from`.
pub fn find(s: &[u8], p: &[u8], from: usize) -> (r: Option<usize>)
    ensures
        match r {
            Some(k) => find_from(s@, p@, from as int) == Some(k as int),
            None => find_from(s@, p@, from as int) is None,
        },
{
    if from > s.len() {
        return None;
    }
    let mut i = from;
    while i < s.len()
        invariant
            from <= i <= s@.len(),
            forall|j: int| from <= j < i ==> !occurs_at(s@, p@, j),
        decreases s@.len() - i,
    {
        if matches_at(s, p, i) {
            proof {
                lemma_find_from_skip(s@, p@, from as int, i as int);
            }
            return Some(i);
        }
        i = i + 1;
    }
    if matches_at(s, p, i) {
        proof {
            lemma_find_from_skip(s@, p@, from as int, i as int);
        }
        return Some(i);
    }
    proof {
        lemma_find_from(s@, p@, from as int);
        if let Some(k) = find_from(s@, p@, from as int) {
            assert(k <= s@.len());
        }
    }
    None
}

/// The position of the first `'\n'` at or after `from`, or `s.len()`.
pub fn line_end(s: &[u8], from: usize) -> (r: usize)
    ensures
        r == newline_or_end(s@, from as int),
{
    let nl: [u8; 1] = [10];
    assert(nl@ =~= seq![10u8]);
    match find(s, nl.as_slice(), from) {
        Some(k) => k,
        None => s.len(),
    }
}

/// The first position at or after `i` holding neither `'\n'` nor `'\r'`.
pub fn skip_newline_bytes(s: &[u8], i: usize) -> (r: usize)
    requires
        i <= s@.len(),
    ensures
        r == skip_newlines(s@, i as int),
        i <= r <= s@.len(),
{
    let mut k = i;
    while k < s.len() && (s[k] == 10u8 || s[k] == 13u8)
        invariant
            i <= k <= s@.len(),
            skip_newlines(s@, i as int) == skip_newlines(s@, k as int),
        decreases s@.len() - k,
    {
        k = k + 1;
    }
    k
}

/// Appends `s[a..b]` to `out`.
pub fn push_range(out: &mut Vec<u8>, s: &[u8], a: usize, b: usize)
    requires
        a <= b <= s@.len(),
    ensures
        final(out)@ == old(out)@ + s@.subrange(a as int, b as int),
{
    let mut k = a;
    while k < b
        invariant
            a <= k <= b <= s@.len(),
            out@ == old(out)@ + s@.subrange(a as int, k as int),
        decreases b - k,
    {
        out.push(s[k]);
        proof {
            assert(s@.subrange(a as int, k + 1) =~= s@.subrange(a as int, k as int).push(s@[k as int]));
        }
        k = k + 1;
    }
}

/// Appends all of `s` to `out`.
pub fn push_all(out: &mut Vec<u8>, s: &[u8])
    ensures
        final(out)@ == old(out)@ + s@,
{
    push_range(out, s, 0, s.len());
    assert(s@.subrange(0, s@.len() as int) =~= s@);
}

/// A copy of `s[a..b]`.
pub fn copy_range(s: &[u8], a: usize, b: usize) -> (r: Vec<u8>)
    requires
        a <= b <= s@.len(),
    ensures
        r@ == s@.subrange(a as int, b as int),
{
    let mut r: Vec<u8> = Vec::new();
    push_range(&mut r, s, a, b);
    assert(Seq::<u8>::empty() + s@.subrange(a as int, b as int) =~= s@.subrange(a as int, b as int));
    r
}

/// Byte-wise equality.
pub fn eq_bytes(a: &[u8], b: &[u8]) -> (r: bool)
    ensures
        r == (a@ == b@),
{
    if a.len() != b.len() {
        return false;
    }
    let mut i: usize = 0;
    while i < a.len()
        invariant
            a@.len() == b@.len(),
            0 <= i <= a@.len(),
            forall|j: int| 0 <= j < i ==> a@[j] == b@[j],
        decreases a@.len() - i,
    {
        if a[i] != b[i] {
            return false;
        }
        i = i + 1;
    }
    assert(a@ =~= b@);
    true
}

} // verus!
