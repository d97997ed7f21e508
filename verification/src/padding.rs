//! Text surrounded by whitespace, as `str::trim` strips it: a word `w` "padded" in `x` when `x`
//! is whitespace, then `w`, then whitespace.
use vstd::prelude::*;
use crate::bytes::{copy_range, eq_bytes};
use crate::unicode::{lemma_skip_ws, skip_ws, skip_ws_at, ws_len};

verus! {

/// Nothing but whitespace scalars.
pub open spec fn is_ws_text(x: Seq<u8>) -> bool {
    skip_ws(x, 0) == x.len()
}

/// `x` is `w` with whitespace before and after it.
pub open spec fn padded(x: Seq<u8>, w: Seq<u8>) -> bool {
    exists|a: Seq<u8>, b: Seq<u8>| is_ws_text(a) && is_ws_text(b) && x == a + w + b
}

/// A word that neither starts nor ends with whitespace and holds none: its first byte is an
/// ASCII letter or `!`, and so are the others.
pub open spec fn plain_word(w: Seq<u8>) -> bool {
    &&& w.len() > 0
    &&& forall|i: int| 0 <= i < w.len() ==> (#[trigger] w[i] == 33u8 || (97u8 <= w[i] <= 122u8))
}

/// Whitespace is found the same after a prefix.
proof fn lemma_ws_len_shift(p: Seq<u8>, y: Seq<u8>, j: int)
    requires
        0 <= j,
    ensures
        ws_len(p + y, p.len() + j) == ws_len(y, j),
{
    let c = p + y;
    let k = p.len() + j;
    if j < y.len() {
        assert(c[k] == y[j]);
        if j + 1 < y.len() {
            assert(c[k + 1] == y[j + 1]);
        }
        if j + 2 < y.len() {
            assert(c[k + 2] == y[j + 2]);
        }
    }
}

/// Skipping whitespace after a prefix.
proof fn lemma_skip_ws_shift(p: Seq<u8>, y: Seq<u8>, j: int)
    requires
        0 <= j,
    ensures
        skip_ws(p + y, p.len() + j) == p.len() + skip_ws(y, j),
    decreases y.len() - j,
{
    lemma_ws_len_shift(p, y, j);
    if j < y.len() && ws_len(y, j) > 0 {
        lemma_skip_ws_shift(p, y, j + ws_len(y, j));
    }
}

/// A whitespace scalar found in a prefix is found, the same, in the whole.
proof fn lemma_ws_len_extend(a: Seq<u8>, z: Seq<u8>, i: int)
    requires
        0 <= i,
        ws_len(a, i) > 0,
    ensures
        ws_len(a + z, i) == ws_len(a, i),
{
    let c = a + z;
    assert(c[i] == a[i]);
    if i + 1 < a.len() {
        assert(c[i + 1] == a[i + 1]);
    }
    if i + 2 < a.len() {
        assert(c[i + 2] == a[i + 2]);
    }
}

/// Skipping the whitespace text `a` at the start of `a + z` stops at its end or later.
proof fn lemma_skip_ws_prefix(a: Seq<u8>, z: Seq<u8>, i: int)
    requires
        0 <= i <= a.len(),
        skip_ws(a, i) == a.len(),
    ensures
        skip_ws(a + z, i) == skip_ws(a + z, a.len() as int),
    decreases a.len() - i,
{
    if i < a.len() {
        assert(ws_len(a, i) > 0);
        lemma_ws_len_extend(a, z, i);
        lemma_skip_ws(a, i + ws_len(a, i));
        lemma_skip_ws_prefix(a, z, i + ws_len(a, i));
    }
}

/// A whitespace scalar that ends by `s` is found, the same, in the first `s` bytes.
proof fn lemma_ws_len_cut(x: Seq<u8>, s: int, i: int)
    requires
        0 <= i,
        s <= x.len(),
        ws_len(x, i) > 0,
        i + ws_len(x, i) <= s,
    ensures
        ws_len(x.subrange(0, s), i) == ws_len(x, i),
{
    let t = x.subrange(0, s);
    assert(t[i] == x[i]);
    if i + 1 < s {
        assert(t[i + 1] == x[i + 1]);
    }
    if i + 2 < s {
        assert(t[i + 2] == x[i + 2]);
    }
}

/// What whitespace skipping passes over is whitespace text.
proof fn lemma_skip_ws_cut(x: Seq<u8>, i: int)
    requires
        0 <= i <= x.len(),
    ensures
        skip_ws(x.subrange(0, skip_ws(x, i)), i) == skip_ws(x, i),
    decreases x.len() - i,
{
    lemma_skip_ws(x, i);
    let s = skip_ws(x, i);
    if i < x.len() && ws_len(x, i) > 0 {
        lemma_skip_ws_cut(x, i + ws_len(x, i));
        lemma_skip_ws(x, i + ws_len(x, i));
        lemma_ws_len_cut(x, s, i);
    }
}

/// `w` is padded in `x` exactly when skipping the leading whitespace reaches `w` and only
/// whitespace follows it.
pub proof fn lemma_padded(x: Seq<u8>, w: Seq<u8>)
    requires
        plain_word(w),
    ensures
        ({
            let s = skip_ws(x, 0);
            padded(x, w) <==> (s + w.len() <= x.len() && x.subrange(s, s + w.len()) == w
                && skip_ws(x, s + w.len()) == x.len())
        }),
{
    let s = skip_ws(x, 0);
    lemma_skip_ws(x, 0);
    if padded(x, w) {
        let (a, b) = choose|a: Seq<u8>, b: Seq<u8>|
            is_ws_text(a) && is_ws_text(b) && x == a + w + b;
        lemma_skip_ws_prefix(a, w + b, 0);
        assert(x =~= a + (w + b));
        lemma_ws_len_shift(a, w + b, 0);
        assert((w + b)[0] == w[0]);
        assert(skip_ws(x, a.len() as int) == a.len());
        assert(x.subrange(s, s + w.len()) =~= w);
        assert(x =~= (a + w) + b);
        lemma_skip_ws_shift(a + w, b, 0);
    }
    if s + w.len() <= x.len() && x.subrange(s, s + w.len()) == w && skip_ws(x, s + w.len())
        == x.len() {
        let a = x.subrange(0, s);
        let b = x.subrange(s + w.len(), x.len() as int);
        lemma_skip_ws_cut(x, 0);
        assert(x =~= a + w + b);
        assert(x =~= (a + w) + b);
        lemma_skip_ws_shift(a + w, b, 0);
        assert(is_ws_text(a) && is_ws_text(b) && x == a + w + b);
    }
}

/// Whether `w` is padded in `x[..n]`, knowing where its leading whitespace ends.
fn padded_at(x: &[u8], s: usize, w: &[u8]) -> (r: bool)
    requires
        s == skip_ws(x@, 0),
        plain_word(w@),
    ensures
        r == padded(x@, w@),
{
    proof {
        lemma_padded(x@, w@);
        lemma_skip_ws(x@, 0);
    }
    let n = x.len();
    assert(x@.subrange(0, n as int) =~= x@);
    if w.len() > n - s {
        return false;
    }
    let part = copy_range(x, s, s + w.len());
    if !eq_bytes(part.as_slice(), w) {
        return false;
    }
    skip_ws_at(x, 0, n, s + w.len()) == n
}

/// `!fixed`, `!durable`, `!volatile` and the words without `!`.
pub open spec fn bare_fixed() -> Seq<u8> {
    seq![102u8, 105u8, 120u8, 101u8, 100u8]
}

pub open spec fn bare_durable() -> Seq<u8> {
    seq![100u8, 117u8, 114u8, 97u8, 98u8, 108u8, 101u8]
}

pub open spec fn bare_volatile() -> Seq<u8> {
    seq![118u8, 111u8, 108u8, 97u8, 116u8, 105u8, 108u8, 101u8]
}

/// The tier tag a typed tier names: `fixed`, `durable` or `volatile`, with or without `!`, and
/// with whitespace around it.
pub open spec fn tier_named(x: Seq<u8>) -> Option<Seq<u8>> {
    if padded(x, bare_fixed()) || padded(x, seq![33u8] + bare_fixed()) {
        Some(seq![33u8] + bare_fixed())
    } else if padded(x, bare_durable()) || padded(x, seq![33u8] + bare_durable()) {
        Some(seq![33u8] + bare_durable())
    } else if padded(x, bare_volatile()) || padded(x, seq![33u8] + bare_volatile()) {
        Some(seq![33u8] + bare_volatile())
    } else {
        None
    }
}

/// The tier tag that a typed tier names (`tier_named`).
pub fn tier_named_exec(x: &[u8]) -> (r: Option<u8>)
    ensures
        match r {
            Some(k) => k < 3 && tier_named(x@) == Some(
                if k == 0 {
                    seq![33u8] + bare_fixed()
                } else if k == 1 {
                    seq![33u8] + bare_durable()
                } else {
                    seq![33u8] + bare_volatile()
                },
            ),
            None => tier_named(x@) is None,
        },
{
    let fixed: [u8; 6] = [33, 102, 105, 120, 101, 100];
    let durable: [u8; 8] = [33, 100, 117, 114, 97, 98, 108, 101];
    let volatile: [u8; 9] = [33, 118, 111, 108, 97, 116, 105, 108, 101];
    assert(fixed@ =~= seq![33u8] + bare_fixed());
    assert(durable@ =~= seq![33u8] + bare_durable());
    assert(volatile@ =~= seq![33u8] + bare_volatile());
    assert(fixed@.subrange(1, 6) =~= bare_fixed());
    assert(durable@.subrange(1, 8) =~= bare_durable());
    assert(volatile@.subrange(1, 9) =~= bare_volatile());
    let n = x.len();
    assert(x@.subrange(0, n as int) =~= x@);
    let s = skip_ws_at(x, 0, n, 0);
    if padded_at(x, s, &fixed[1..6]) || padded_at(x, s, fixed.as_slice()) {
        return Some(0);
    }
    if padded_at(x, s, &durable[1..8]) || padded_at(x, s, durable.as_slice()) {
        return Some(1);
    }
    if padded_at(x, s, &volatile[1..9]) || padded_at(x, s, volatile.as_slice()) {
        return Some(2);
    }
    None
}

/// With `w` padded in `x`, a word that differs from `w` at a byte both have is not padded in it.
proof fn lemma_not_padded(x: Seq<u8>, w: Seq<u8>, u: Seq<u8>, j: int)
    requires
        plain_word(w),
        plain_word(u),
        padded(x, w),
        0 <= j < w.len(),
        j < u.len(),
        w[j] != u[j],
    ensures
        !padded(x, u),
{
    lemma_padded(x, w);
    lemma_padded(x, u);
    lemma_skip_ws(x, 0);
    let s = skip_ws(x, 0);
    if padded(x, u) {
        assert(x.subrange(s, s + w.len())[j] == x[s + j]);
        assert(x.subrange(s, s + u.len())[j] == x[s + j]);
    }
}

/// A word between whitespace is padded there.
proof fn lemma_is_padded(a: Seq<u8>, w: Seq<u8>, b: Seq<u8>)
    requires
        is_ws_text(a),
        is_ws_text(b),
    ensures
        padded(a + w + b, w),
{
}

/// Each of the three tiers is named by its word, with or without `!`, and with any whitespace
/// around it: `fixed`, ` !fixed ` and the like give `!fixed`, and so for `durable` and
/// `volatile`.
pub proof fn law_tier_words(a: Seq<u8>, b: Seq<u8>)
    requires
        is_ws_text(a),
        is_ws_text(b),
    ensures
        tier_named(a + bare_fixed() + b) == Some(seq![33u8] + bare_fixed()),
        tier_named(a + (seq![33u8] + bare_fixed()) + b) == Some(seq![33u8] + bare_fixed()),
        tier_named(a + bare_durable() + b) == Some(seq![33u8] + bare_durable()),
        tier_named(a + (seq![33u8] + bare_durable()) + b) == Some(seq![33u8] + bare_durable()),
        tier_named(a + bare_volatile() + b) == Some(seq![33u8] + bare_volatile()),
        tier_named(a + (seq![33u8] + bare_volatile()) + b) == Some(seq![33u8] + bare_volatile()),
{
    let f = bare_fixed();
    let d = bare_durable();
    let v = bare_volatile();
    let bf = seq![33u8] + f;
    let bd = seq![33u8] + d;
    let bv = seq![33u8] + v;
    assert(plain_word(f) && plain_word(d) && plain_word(v));
    assert(plain_word(bf)) by {
        assert forall|i: int| 0 <= i < bf.len() implies (#[trigger] bf[i] == 33u8 || (97u8 <= bf[i]
            <= 122u8)) by {
            if i > 0 {
                assert(bf[i] == f[i - 1]);
            }
        }
    }
    assert(plain_word(bd)) by {
        assert forall|i: int| 0 <= i < bd.len() implies (#[trigger] bd[i] == 33u8 || (97u8 <= bd[i]
            <= 122u8)) by {
            if i > 0 {
                assert(bd[i] == d[i - 1]);
            }
        }
    }
    assert(plain_word(bv)) by {
        assert forall|i: int| 0 <= i < bv.len() implies (#[trigger] bv[i] == 33u8 || (97u8 <= bv[i]
            <= 122u8)) by {
            if i > 0 {
                assert(bv[i] == v[i - 1]);
            }
        }
    }
    assert(bf[1] == f[0] && bd[1] == d[0] && bv[1] == v[0]);
    // fixed
    lemma_is_padded(a, f, b);
    lemma_is_padded(a, bf, b);
    // durable
    lemma_is_padded(a, d, b);
    lemma_not_padded(a + d + b, d, f, 0);
    lemma_not_padded(a + d + b, d, bf, 0);
    lemma_is_padded(a, bd, b);
    lemma_not_padded(a + bd + b, bd, f, 0);
    lemma_not_padded(a + bd + b, bd, bf, 1);
    // volatile
    lemma_is_padded(a, v, b);
    lemma_not_padded(a + v + b, v, f, 0);
    lemma_not_padded(a + v + b, v, bf, 0);
    lemma_not_padded(a + v + b, v, d, 0);
    lemma_not_padded(a + v + b, v, bd, 0);
    lemma_is_padded(a, bv, b);
    lemma_not_padded(a + bv + b, bv, f, 0);
    lemma_not_padded(a + bv + b, bv, bf, 1);
    lemma_not_padded(a + bv + b, bv, d, 0);
    lemma_not_padded(a + bv + b, bv, bd, 1);
}

/// Just past the last byte from `i` on that is not part of a whitespace scalar (`e` if none).
pub open spec fn content_end(x: Seq<u8>, i: int, e: int) -> int
    decreases x.len() - i,
{
    if i < 0 || i >= x.len() {
        e
    } else if ws_len(x, i) > 0 {
        content_end(x, i + ws_len(x, i), e)
    } else {
        content_end(x, i + 1, i + 1)
    }
}

/// `x` without leading and trailing whitespace (`str::trim`).
pub open spec fn trimmed(x: Seq<u8>) -> Seq<u8> {
    let s = skip_ws(x, 0);
    let e = content_end(x, 0, 0);
    if e <= s {
        seq![]
    } else {
        x.subrange(s, e)
    }
}

/// Where `trimmed(x)` starts and ends in `x`.
#[verifier::rlimit(30)]
pub fn trim_bounds(x: &[u8]) -> (r: (usize, usize))
    ensures
        r.0 <= r.1 <= x@.len(),
        x@.subrange(r.0 as int, r.1 as int) == trimmed(x@),
{
    let n = x.len();
    assert(x@.subrange(0, n as int) =~= x@);
    let s = skip_ws_at(x, 0, n, 0);
    let mut i: usize = 0;
    let mut e: usize = 0;
    while i < n
        invariant
            i <= n,
            e <= i,
            n == x@.len(),
            x@.subrange(0, n as int) == x@,
            content_end(x@, 0, 0) == content_end(x@, i as int, e as int),
        decreases n - i,
    {
        let w = crate::unicode::ws_len_at(x, 0, n, i);
        if w > 0 {
            proof {
                assert(i + w <= n) by {
                    crate::unicode::lemma_skip_ws(x@, i as int);
                }
            }
            i = i + w;
        } else {
            i = i + 1;
            e = i;
        }
    }
    if e <= s {
        (s, s)
    } else {
        (s, e)
    }
}

/// Where `content_end` stops: at its starting `e`, at the end, or where a whitespace scalar
/// starts; and past `i` when no whitespace starts at `i`.
proof fn lemma_content_end(x: Seq<u8>, i: int, e: int)
    requires
        0 <= e <= i <= x.len(),
    ensures
        ({
            let r = content_end(x, i, e);
            &&& e <= r <= x.len()
            &&& r == e || r == x.len() || ws_len(x, r) > 0
            &&& (i < x.len() && ws_len(x, i) == 0 ==> r >= i + 1)
        }),
    decreases x.len() - i,
{
    if i < x.len() {
        if ws_len(x, i) > 0 {
            lemma_content_end(x, i + ws_len(x, i), e);
        } else {
            lemma_content_end(x, i + 1, i + 1);
        }
    }
}

/// Trimming valid UTF-8 leaves valid UTF-8.
pub proof fn lemma_trimmed_valid(x: Seq<u8>)
    requires
        vstd::utf8::valid_utf8(x),
    ensures
        vstd::utf8::valid_utf8(trimmed(x)),
{
    let s = skip_ws(x, 0);
    let e = content_end(x, 0, 0);
    lemma_skip_ws(x, 0);
    lemma_content_end(x, 0, 0);
    if s < e {
        if 0 < x.len() {
            crate::unicode::lemma_valid_first_byte(x);
        }
        crate::unicode::lemma_skip_ws_boundary(x, 0);
        if e < x.len() && e != 0 {
            crate::unicode::lemma_ws_start(x, e);
        }
        crate::unicode::lemma_valid_between(x, s, e);
    } else {
        assert(vstd::utf8::valid_utf8(Seq::<u8>::empty())) by {
            reveal_with_fuel(vstd::utf8::valid_utf8, 1);
        }
    }
}

/// A byte that is printable ASCII other than the space.
pub open spec fn visible_ascii(c: u8) -> bool {
    33u8 <= c <= 126u8
}

/// Where the rest from `i` is whitespace, no more content is found.
proof fn lemma_content_end_ws(x: Seq<u8>, i: int, e: int)
    requires
        0 <= i <= x.len(),
        skip_ws(x, i) == x.len(),
    ensures
        content_end(x, i, e) == e,
    decreases x.len() - i,
{
    if i < x.len() {
        assert(ws_len(x, i) > 0);
        lemma_skip_ws(x, i + ws_len(x, i));
        lemma_content_end_ws(x, i + ws_len(x, i), e);
    }
}

/// Up to a visible ASCII byte at `m`, the search for the content's end reaches `m` and finds
/// content there.
proof fn lemma_content_end_reaches(x: Seq<u8>, i: int, e: int, m: int)
    requires
        0 <= i <= m < x.len(),
        visible_ascii(x[m]),
    ensures
        content_end(x, i, e) == content_end(x, m + 1, m + 1),
    decreases m - i,
{
    if i < m {
        if ws_len(x, i) > 0 {
            assert(i + ws_len(x, i) <= m) by {
                if i + ws_len(x, i) > m {
                    assert(ws_len(x, i) >= 2);
                    assert(x[i + 1] >= 128u8 || i + 1 != m);
                    if ws_len(x, i) == 3 {
                        assert(x[i + 2] >= 128u8);
                    }
                }
            }
            lemma_content_end_reaches(x, i + ws_len(x, i), e, m);
        } else {
            lemma_content_end_reaches(x, i + 1, i + 1, m);
        }
    } else {
        assert(ws_len(x, m) == 0);
    }
}

/// Trimming takes off the whitespace around text that starts and ends with a visible ASCII
/// character, and only that: whatever stands between those two is kept.
pub proof fn law_trim_strips_around(a: Seq<u8>, w: Seq<u8>, b: Seq<u8>)
    requires
        is_ws_text(a),
        is_ws_text(b),
        w.len() > 0,
        visible_ascii(w[0]),
        visible_ascii(w.last()),
    ensures
        trimmed(a + w + b) == w,
{
    let x = a + w + b;
    let m = (a.len() + w.len() - 1) as int;
    assert(x =~= a + (w + b));
    lemma_skip_ws_prefix(a, w + b, 0);
    lemma_ws_len_shift(a, w + b, 0);
    assert((w + b)[0] == w[0]);
    assert(ws_len(w + b, 0) == 0);
    assert(skip_ws(x, 0) == a.len());
    assert(x[m] == w.last());
    lemma_content_end_reaches(x, 0, 0, m);
    assert(x =~= (a + w) + b);
    lemma_skip_ws_shift(a + w, b, 0);
    lemma_content_end_ws(x, m + 1, m + 1);
    assert(x.subrange(a.len() as int, m + 1) =~= w);
}

/// Trimming whitespace alone leaves nothing.
pub proof fn law_trim_whitespace_only(a: Seq<u8>)
    requires
        is_ws_text(a),
    ensures
        trimmed(a) == Seq::<u8>::empty(),
{
    lemma_content_end_ws(a, 0, 0);
}

/// A typed tier is read as a tier only when it is that tier's word, with or without `!`, between
/// whitespace: the result is one of the three tier tags, and the input is that tag or the tag
/// without its `!`, padded.
pub proof fn law_tier_named_only_tier_words(x: Seq<u8>)
    ensures
        tier_named(x) matches Some(t) ==> {
            &&& crate::store::is_tier(t)
            &&& padded(x, t) || padded(x, t.drop_first())
        },
{
    assert((seq![33u8] + bare_fixed()).drop_first() =~= bare_fixed());
    assert((seq![33u8] + bare_durable()).drop_first() =~= bare_durable());
    assert((seq![33u8] + bare_volatile()).drop_first() =~= bare_volatile());
    assert(seq![33u8] + bare_fixed() =~= crate::store::fixed_tag());
    assert(seq![33u8] + bare_durable() =~= crate::layout::durable_tag());
    assert(seq![33u8] + bare_volatile() =~= crate::store::volatile_tag());
}

} // verus!
