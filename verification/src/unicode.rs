//! UTF-8 facts and the whitespace-separated tokens of a line.
use vstd::prelude::*;
use vstd::utf8::*;

verus! {

broadcast use {is_char_boundary_iff_is_leading_byte, is_char_boundary_start_end_of_seq};

/// Turns bytes into a `String` with std's `String::from_utf8`. Trusted to succeed exactly when
/// the bytes are valid UTF-8, and then to hold exactly those bytes, as its documentation says.
#[verifier::external_body]
pub(crate) fn string_from_utf8(bytes: Vec<u8>) -> (res: Option<String>)
    ensures
        res is Some <==> valid_utf8(bytes@),
        res matches Some(s) ==> encode_utf8(s@) == bytes@,
{
    String::from_utf8(bytes).ok()
}

/// Position `k` of `b` is its start, its end, or holds or follows an ASCII byte.
pub open spec fn ascii_edge(b: Seq<u8>, k: int) -> bool {
    k == 0 || k == b.len() || (0 <= k < b.len() && b[k] < 128) || (0 < k < b.len() && b[k - 1]
        < 128)
}

/// In valid UTF-8, every position of `ascii_edge` is a char boundary.
pub proof fn lemma_ascii_edge_boundary(b: Seq<u8>, k: int)
    requires
        valid_utf8(b),
        0 <= k <= b.len(),
        ascii_edge(b, k),
    ensures
        is_char_boundary(b, k),
{
    if k == 0 {
        assert(is_char_boundary(b, 0));
    } else if k == b.len() {
        assert(is_char_boundary(b, b.len() as int));
    } else if b[k] < 128 {
        assert(is_leading_byte_width_1(b[k]));
    } else {
        assert(is_leading_byte_width_1(b[k - 1]));
        assert(is_char_boundary(b, k - 1));
        valid_utf8_split(b, k - 1);
        let s2 = b.subrange(k - 1, b.len() as int);
        assert(valid_utf8(s2));
        assert(s2[0] == b[k - 1]);
        assert(length_of_first_scalar(s2) == 1);
        assert(pop_first_scalar(s2) =~= b.subrange(k, b.len() as int));
        let s3 = b.subrange(k, b.len() as int);
        assert(valid_utf8(s3));
        assert(s3.len() > 0);
        assert(valid_first_scalar(s3));
        assert(s3[0] == b[k]);
        assert(!is_continuation_byte(b[k]));
        is_char_boundary_iff_not_is_continuation_byte(b, k);
    }
}

/// A stretch of valid UTF-8 cut at ASCII bytes is valid UTF-8.
pub proof fn lemma_valid_subrange(b: Seq<u8>, i: int, j: int)
    requires
        valid_utf8(b),
        0 <= i <= j <= b.len(),
        ascii_edge(b, i),
        ascii_edge(b, j),
    ensures
        valid_utf8(b.subrange(i, j)),
{
    lemma_ascii_edge_boundary(b, j);
    valid_utf8_split(b, j);
    let p = b.subrange(0, j);
    assert(valid_utf8(p));
    if i < j && i > 0 {
        assert(p[i] == b[i]);
        assert(p[i - 1] == b[i - 1]);
    }
    assert(ascii_edge(p, i));
    lemma_ascii_edge_boundary(p, i);
    valid_utf8_split(p, i);
    assert(p.subrange(i, p.len() as int) =~= b.subrange(i, j));
}

/// The bytes of a `&str` are valid UTF-8.
pub proof fn lemma_str_valid(s: Seq<char>)
    ensures
        valid_utf8(encode_utf8(s)),
{
    encode_utf8_valid_utf8(s);
}

/// How many bytes the Unicode `White_Space` scalar encoded at `i` takes (0 if none starts there):
/// U+0009..U+000D, U+0020, U+0085, U+00A0, U+1680, U+2000..U+200A, U+2028, U+2029, U+202F,
/// U+205F and U+3000, as `char::is_whitespace` defines them.
pub open spec fn ws_len(t: Seq<u8>, i: int) -> int {
    if i < 0 || i >= t.len() {
        0
    } else if t[i] == 9u8 || t[i] == 10u8 || t[i] == 11u8 || t[i] == 12u8 || t[i] == 13u8 || t[i]
        == 32u8 {
        1
    } else if t[i] == 0xC2u8 && i + 1 < t.len() && (t[i + 1] == 0x85u8 || t[i + 1] == 0xA0u8) {
        2
    } else if i + 2 < t.len() && ((t[i] == 0xE1u8 && t[i + 1] == 0x9Au8 && t[i + 2] == 0x80u8) || (
    t[i] == 0xE2u8 && t[i + 1] == 0x80u8 && ((0x80u8 <= t[i + 2] && t[i + 2] <= 0x8Au8) || t[i + 2]
        == 0xA8u8 || t[i + 2] == 0xA9u8 || t[i + 2] == 0xAFu8)) || (t[i] == 0xE2u8 && t[i + 1]
        == 0x81u8 && t[i + 2] == 0x9Fu8) || (t[i] == 0xE3u8 && t[i + 1] == 0x80u8 && t[i + 2]
        == 0x80u8)) {
        3
    } else {
        0
    }
}

/// The first position at or after `i` where no whitespace scalar starts.
pub open spec fn skip_ws(t: Seq<u8>, i: int) -> int
    decreases t.len() - i,
{
    if 0 <= i < t.len() && ws_len(t, i) > 0 {
        skip_ws(t, i + ws_len(t, i))
    } else {
        i
    }
}

/// The first position at or after `i` where a whitespace scalar starts, or the end.
pub open spec fn token_end(t: Seq<u8>, i: int) -> int
    decreases t.len() - i,
{
    if 0 <= i < t.len() && ws_len(t, i) == 0 {
        token_end(t, i + 1)
    } else {
        i
    }
}

/// The next whitespace-separated token at or after `i`, as a range `(start, end)`.
pub open spec fn next_token(t: Seq<u8>, i: int) -> Option<(int, int)> {
    let s = skip_ws(t, i);
    if 0 <= s < t.len() {
        Some((s, token_end(t, s)))
    } else {
        None
    }
}

pub proof fn lemma_skip_ws(t: Seq<u8>, i: int)
    requires
        0 <= i <= t.len(),
    ensures
        i <= skip_ws(t, i) <= t.len(),
        skip_ws(t, i) < t.len() ==> ws_len(t, skip_ws(t, i)) == 0,
    decreases t.len() - i,
{
    if 0 <= i < t.len() && ws_len(t, i) > 0 {
        lemma_skip_ws(t, i + ws_len(t, i));
    }
}

pub proof fn lemma_token_end(t: Seq<u8>, i: int)
    requires
        0 <= i <= t.len(),
    ensures
        i <= token_end(t, i) <= t.len(),
        forall|k: int| i <= k < token_end(t, i) ==> ws_len(t, k) == 0,
    decreases t.len() - i,
{
    if 0 <= i < t.len() && ws_len(t, i) == 0 {
        lemma_token_end(t, i + 1);
    }
}

pub proof fn lemma_next_token(t: Seq<u8>, i: int)
    requires
        0 <= i <= t.len(),
    ensures
        next_token(t, i) matches Some((s, e)) ==> i <= s < e <= t.len(),
{
    lemma_skip_ws(t, i);
    let s = skip_ws(t, i);
    if 0 <= s < t.len() {
        assert(ws_len(t, s) == 0);
        lemma_token_end(t, s + 1);
        assert(token_end(t, s) == token_end(t, s + 1));
    }
}

/// `ws_len` of `s[a..b]` at `i - a`.
#[verifier::rlimit(30)]
pub fn ws_len_at(s: &[u8], a: usize, b: usize, i: usize) -> (r: usize)
    requires
        a <= i <= b <= s@.len(),
    ensures
        r as int == ws_len(s@.subrange(a as int, b as int), i - a),
        r <= 3,
{
    let ghost t = s@.subrange(a as int, b as int);
    if i >= b {
        return 0;
    }
    let c = s[i];
    proof {
        assert(t[i - a] == c);
    }
    if c == 9u8 || c == 10u8 || c == 11u8 || c == 12u8 || c == 13u8 || c == 32u8 {
        return 1;
    }
    if c == 0xC2u8 && b - i > 1 && (s[i + 1] == 0x85u8 || s[i + 1] == 0xA0u8) {
        proof {
            assert(t[i - a + 1] == s@[i + 1]);
        }
        return 2;
    }
    proof {
        if b - i > 1 {
            assert(t[i - a + 1] == s@[i + 1]);
        }
    }
    if b - i > 2 {
        let c1 = s[i + 1];
        let c2 = s[i + 2];
        proof {
            assert(t[i - a + 1] == c1);
            assert(t[i - a + 2] == c2);
        }
        if (c == 0xE1u8 && c1 == 0x9Au8 && c2 == 0x80u8) || (c == 0xE2u8 && c1 == 0x80u8 && ((
        0x80u8 <= c2 && c2 <= 0x8Au8) || c2 == 0xA8u8 || c2 == 0xA9u8 || c2 == 0xAFu8)) || (c
            == 0xE2u8 && c1 == 0x81u8 && c2 == 0x9Fu8) || (c == 0xE3u8 && c1 == 0x80u8 && c2
            == 0x80u8) {
            return 3;
        }
    }
    0
}

/// `skip_ws` of `s[a..b]` from `i - a`, plus `a`.
pub fn skip_ws_at(s: &[u8], a: usize, b: usize, i: usize) -> (r: usize)
    requires
        a <= i <= b <= s@.len(),
    ensures
        r - a == skip_ws(s@.subrange(a as int, b as int), i - a),
        i <= r <= b,
{
    let ghost t = s@.subrange(a as int, b as int);
    let mut k = i;
    loop
        invariant
            a <= i <= k <= b <= s@.len(),
            t == s@.subrange(a as int, b as int),
            skip_ws(t, i - a) == skip_ws(t, k - a),
        decreases b - k,
    {
        if k >= b {
            return k;
        }
        let w = ws_len_at(s, a, b, k);
        if w == 0 {
            return k;
        }
        proof {
            assert(k + w <= b) by {
                assert(ws_len(t, k - a) <= t.len() - (k - a));
            }
        }
        k = k + w;
    }
}

/// `token_end` of `s[a..b]` from `i - a`, plus `a`.
pub fn token_end_at(s: &[u8], a: usize, b: usize, i: usize) -> (r: usize)
    requires
        a <= i <= b <= s@.len(),
    ensures
        r - a == token_end(s@.subrange(a as int, b as int), i - a),
        i <= r <= b,
{
    let ghost t = s@.subrange(a as int, b as int);
    let mut k = i;
    while k < b && ws_len_at(s, a, b, k) == 0
        invariant
            a <= i <= k <= b <= s@.len(),
            t == s@.subrange(a as int, b as int),
            token_end(t, i - a) == token_end(t, k - a),
        decreases b - k,
    {
        k = k + 1;
    }
    k
}

/// `next_token` of `s[a..b]` from `i - a`, shifted by `a`.
pub fn next_token_at(s: &[u8], a: usize, b: usize, i: usize) -> (r: Option<(usize, usize)>)
    requires
        a <= i <= b <= s@.len(),
    ensures
        match r {
            Some((x, y)) => next_token(s@.subrange(a as int, b as int), i - a) == Some(
                ((x - a) as int, (y - a) as int),
            ) && i <= x < y <= b,
            None => next_token(s@.subrange(a as int, b as int), i - a) is None,
        },
{
    let st = skip_ws_at(s, a, b, i);
    if st >= b {
        return None;
    }
    let en = token_end_at(s, a, b, st);
    proof {
        lemma_next_token(s@.subrange(a as int, b as int), i - a);
    }
    Some((st, en))
}

/// A whitespace scalar starts with a byte that is not a continuation byte.
pub proof fn lemma_ws_start(t: Seq<u8>, i: int)
    requires
        ws_len(t, i) > 0,
    ensures
        0 <= i < t.len(),
        !is_continuation_byte(t[i]),
{
}

/// In valid UTF-8, a position whose byte is not a continuation byte is a char boundary.
pub proof fn lemma_boundary_at(t: Seq<u8>, i: int)
    requires
        valid_utf8(t),
        0 <= i <= t.len(),
        i == t.len() || !is_continuation_byte(t[i]),
    ensures
        is_char_boundary(t, i),
{
    if i < t.len() {
        is_char_boundary_iff_not_is_continuation_byte(t, i);
    }
}

/// The bytes between two char boundaries of valid UTF-8 are valid UTF-8.
pub proof fn lemma_valid_between(t: Seq<u8>, i: int, j: int)
    requires
        valid_utf8(t),
        0 <= i <= j <= t.len(),
        i == t.len() || !is_continuation_byte(t[i]),
        j == t.len() || !is_continuation_byte(t[j]),
    ensures
        valid_utf8(t.subrange(i, j)),
{
    lemma_boundary_at(t, j);
    valid_utf8_split(t, j);
    let u = t.subrange(0, j);
    if i < j {
        assert(u[i] == t[i]);
    }
    lemma_boundary_at(u, i);
    valid_utf8_split(u, i);
    assert(u.subrange(i, u.len() as int) =~= t.subrange(i, j));
}

/// The first byte of non-empty valid UTF-8 is not a continuation byte.
pub proof fn lemma_valid_first_byte(t: Seq<u8>)
    requires
        valid_utf8(t),
        t.len() > 0,
    ensures
        !is_continuation_byte(t[0]),
{
}


/// In valid UTF-8, the byte after a whitespace scalar is not a continuation byte.
pub proof fn lemma_after_ws(t: Seq<u8>, i: int)
    requires
        valid_utf8(t),
        ws_len(t, i) > 0,
        is_char_boundary(t, i),
    ensures
        i + ws_len(t, i) <= t.len(),
        i + ws_len(t, i) == t.len() || !is_continuation_byte(t[i + ws_len(t, i)]),
{
    let w = ws_len(t, i);
    valid_utf8_split(t, i);
    let y = t.subrange(i, t.len() as int);
    assert(y[0] == t[i]);
    if w > 1 {
        assert(y[1] == t[i + 1]);
    }
    if w > 2 {
        assert(y[2] == t[i + 2]);
    }
    assert(length_of_first_scalar(y) == w);
    let z = pop_first_scalar(y);
    if i + w < t.len() {
        assert(z[0] == t[i + w]);
        lemma_valid_first_byte(z);
    }
}

/// Skipping whitespace from a char boundary of valid UTF-8 stops where no continuation byte
/// is.
pub proof fn lemma_skip_ws_boundary(t: Seq<u8>, i: int)
    requires
        valid_utf8(t),
        0 <= i <= t.len(),
        i == t.len() || !is_continuation_byte(t[i]),
    ensures
        skip_ws(t, i) == t.len() || !is_continuation_byte(t[skip_ws(t, i)]),
    decreases t.len() - i,
{
    if i < t.len() && ws_len(t, i) > 0 {
        lemma_boundary_at(t, i);
        lemma_after_ws(t, i);
        lemma_skip_ws_boundary(t, i + ws_len(t, i));
    }
}

} // verus!
