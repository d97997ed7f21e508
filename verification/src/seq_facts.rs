//! Facts about searching and tokenizing byte strings built by concatenation.
use vstd::prelude::*;
use crate::bytes::{find_from, lemma_find_from, lemma_find_from_skip, occurs_at};
use crate::unicode::{next_token, skip_ws, token_end, ws_len};

verus! {

/// No byte of `a` from `from` on equals `x`.
pub open spec fn lacks_from(a: Seq<u8>, x: u8, from: int) -> bool {
    forall|j: int| from <= j < a.len() ==> a[j] != x
}

/// No byte of `a` equals `x`.
pub open spec fn lacks(a: Seq<u8>, x: u8) -> bool {
    lacks_from(a, x, 0)
}

/// Searching `a + b` past a stretch of `a` that lacks the pattern's first byte continues in `b`.
pub proof fn lemma_find_skip_prefix(a: Seq<u8>, b: Seq<u8>, p: Seq<u8>, from: int)
    requires
        0 <= from <= a.len(),
        p.len() > 0,
        lacks_from(a, p[0], from),
    ensures
        find_from(a + b, p, from) == match find_from(b, p, 0) {
            Some(k) => Some(k + a.len()),
            None => None::<int>,
        },
{
    let c = a + b;
    assert forall|j: int| from <= j < a.len() implies !occurs_at(c, p, j) by {
        if occurs_at(c, p, j) {
            assert(c.subrange(j, j + p.len())[0] == c[j]);
        }
    }
    lemma_find_from_skip(c, p, from, a.len() as int);
    lemma_find_shift(a, b, p, 0);
}

/// Searching `pre + y` from inside `y` is searching `y`, shifted.
pub proof fn lemma_find_shift(pre: Seq<u8>, y: Seq<u8>, p: Seq<u8>, i: int)
    requires
        0 <= i,
        p.len() > 0,
    ensures
        find_from(pre + y, p, pre.len() + i) == match find_from(y, p, i) {
            Some(k) => Some(k + pre.len()),
            None => None::<int>,
        },
    decreases y.len() - i,
{
    let b = pre + y;
    let j = pre.len() + i;
    if j + p.len() > b.len() {
    } else {
        assert(b.subrange(j, j + p.len()) =~= y.subrange(i, i + p.len()));
        if !occurs_at(b, p, j) {
            lemma_find_shift(pre, y, p, i + 1);
        }
    }
}


/// Occurrences in `b` are occurrences in `a + b`, shifted.
pub proof fn lemma_occurs_shift(a: Seq<u8>, b: Seq<u8>, p: Seq<u8>, k: int)
    requires
        0 <= k,
    ensures
        occurs_at(a + b, p, a.len() + k) == occurs_at(b, p, k),
{
    if k + p.len() <= b.len() {
        assert((a + b).subrange(a.len() + k, a.len() + k + p.len()) =~= b.subrange(k, k + p.len()));
    }
}

/// An occurrence right at `from` is what searching from `from` finds.
pub proof fn lemma_find_here(c: Seq<u8>, p: Seq<u8>, from: int)
    requires
        occurs_at(c, p, from),
    ensures
        find_from(c, p, from) == Some(from),
{
}

/// `skip_ws` stops at a position where no whitespace starts.
pub proof fn lemma_skip_ws_none(t: Seq<u8>, i: int)
    requires
        0 <= i,
        i >= t.len() || ws_len(t, i) == 0,
    ensures
        skip_ws(t, i) == i,
{
}

/// `skip_ws` over one whitespace scalar at `i`.
pub proof fn lemma_skip_ws_one(t: Seq<u8>, i: int)
    requires
        0 <= i < t.len(),
        ws_len(t, i) > 0,
    ensures
        skip_ws(t, i) == skip_ws(t, i + ws_len(t, i)),
{
}

/// A token runs to the first whitespace position.
pub proof fn lemma_token_end_at(t: Seq<u8>, i: int, e: int)
    requires
        0 <= i <= e <= t.len(),
        forall|k: int| i <= k < e ==> ws_len(t, k) == 0,
        e == t.len() || ws_len(t, e) > 0,
    ensures
        token_end(t, i) == e,
    decreases e - i,
{
    if i < e {
        lemma_token_end_at(t, i + 1, e);
    }
}

/// The token starting at `i` when no whitespace is there.
pub proof fn lemma_next_token_at(t: Seq<u8>, i: int, e: int)
    requires
        0 <= i < e <= t.len(),
        forall|k: int| i <= k < e ==> ws_len(t, k) == 0,
        e == t.len() || ws_len(t, e) > 0,
    ensures
        next_token(t, i) == Some((i, e)),
{
    lemma_skip_ws_none(t, i);
    lemma_token_end_at(t, i, e);
}

} // verus!
