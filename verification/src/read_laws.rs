//! Reading a section looks at nothing but its own lines: the bytes from its marker line to the
//! `%%END` line that closes it.
use vstd::prelude::*;
use crate::bytes::{find_from, lemma_find_from, lemma_find_from_skip, occurs_at, starts_with};
use vstd::utf8::valid_utf8;
use crate::layout::{end_tag, line_next, line_text, read_at, read_lines, ReadOutcome};
use crate::seq_facts::{lemma_find_here, lemma_find_shift};

verus! {

/// A section's text: lines ending with a line break, then a closing `%%END` line.
pub open spec fn closed_text(t0: Seq<u8>) -> Seq<u8> {
    t0 + end_tag() + seq![10u8]
}

/// A section's text: lines ending with a line break, then a line starting `%%END` and going on
/// with `u` to its line break.
pub open spec fn closed_by(t0: Seq<u8>, u: Seq<u8>) -> Seq<u8> {
    t0 + end_tag() + u + seq![10u8]
}

/// What is found in `t` is found at the same place in `t` followed by anything.
pub proof fn lemma_find_in_prefix(t: Seq<u8>, s: Seq<u8>, pat: Seq<u8>, j: int, k: int)
    requires
        0 <= j,
        find_from(t, pat, j) == Some(k),
    ensures
        find_from(t + s, pat, j) == Some(k),
{
    lemma_find_from(t, pat, j);
    let c = t + s;
    assert(c.subrange(k, k + pat.len()) =~= t.subrange(k, k + pat.len()));
    assert forall|i: int| j <= i < k implies !occurs_at(c, pat, i) by {
        assert(!occurs_at(t, pat, i));
        if occurs_at(c, pat, i) {
            assert(c.subrange(i, i + pat.len()) =~= t.subrange(i, i + pat.len()));
        }
    }
    lemma_find_from_skip(c, pat, j, k);
    lemma_find_here(c, pat, k);
}

/// The line at `j` of `t`, which holds a line break at or after `j`, is the same line of
/// `p + t + s`.
proof fn lemma_line_local(p: Seq<u8>, t: Seq<u8>, s: Seq<u8>, j: int)
    requires
        0 <= j,
        find_from(t, seq![10u8], j) is Some,
    ensures
        line_next(p + t + s, p.len() + j) == p.len() + line_next(t, j),
        line_text(p + t + s, p.len() + j) == line_text(t, j),
        j < line_next(t, j) <= t.len(),
        (p + t + s).subrange(p.len() + j, p.len() + line_next(t, j)) == t.subrange(
            j,
            line_next(t, j),
        ),
{
    let k = find_from(t, seq![10u8], j)->0;
    lemma_find_from(t, seq![10u8], j);
    lemma_find_in_prefix(t, s, seq![10u8], j, k);
    let c = p + t + s;
    assert(c =~= p + (t + s));
    lemma_find_shift(p, t + s, seq![10u8], j);
    assert(c.subrange(p.len() + j, p.len() + k) =~= t.subrange(j, k));
    assert(c.subrange(p.len() + j, p.len() + k + 1) =~= t.subrange(j, k + 1));
    if k > j {
        assert(c[p.len() + k - 1] == t[k - 1]);
        assert(c.subrange(p.len() + j, p.len() + k - 1) =~= t.subrange(j, k - 1));
    }
}

/// Reading body lines from inside a closed section text gives the same whatever stands around.
#[verifier::rlimit(40)]
proof fn lemma_lines_local(p: Seq<u8>, t0: Seq<u8>, u: Seq<u8>, s: Seq<u8>, j: int, acc: Seq<u8>)
    requires
        t0.len() > 0,
        t0.last() == 10u8,
        crate::seq_facts::lacks(u, 10u8),
        0 <= j <= t0.len(),
    ensures
        read_lines(p + closed_by(t0, u) + s, p.len() + j, acc) == read_lines(
            closed_by(t0, u),
            j,
            acc,
        ),
    decreases t0.len() - j,
{
    let t = closed_by(t0, u);
    let c = p + t + s;
    let nl = seq![10u8];
    if j == t0.len() {
        let e = j + 5 + u.len();
        assert(t.subrange(e, e + 1) =~= nl);
        lemma_find_from(t, nl, j);
        assert forall|i: int| j <= i < e implies !occurs_at(t, nl, i) by {
            if occurs_at(t, nl, i) {
                assert(t.subrange(i, i + 1)[0] == t[i]);
                if i < j + 5 {
                    assert(t[i] == end_tag()[i - j]);
                } else {
                    assert(t[i] == u[i - j - 5]);
                }
            }
        }
        lemma_find_from_skip(t, nl, j, e);
        lemma_find_here(t, nl, e);
        lemma_line_local(p, t, s, j);
        assert(t.subrange(j, j + 5) =~= end_tag());
        assert(starts_with(line_text(t, j), end_tag())) by {
            if e > j && t[e - 1] == 13u8 {
                assert(u.len() > 0);
                assert(line_text(t, j) == t.subrange(j, e - 1));
            } else {
                assert(line_text(t, j) == t.subrange(j, e));
            }
            assert(line_text(t, j).subrange(0, 5) =~= t.subrange(j, j + 5));
        }
        let q = p.len() + j;
        assert(line_next(c, q) == q + e + 1 - j);
        assert(c.subrange(q, q + e + 1 - j) == t.subrange(j, e + 1));
        if valid_utf8(t.subrange(j, e + 1)) {
            assert(read_lines(t, j, acc) == ReadOutcome::Body(acc));
            assert(read_lines(c, q, acc) == ReadOutcome::Body(acc));
        } else {
            assert(read_lines(t, j, acc) == ReadOutcome::BadUtf8);
            assert(read_lines(c, q, acc) == ReadOutcome::BadUtf8);
        }
    } else {
        let k0 = t0.len() - 1;
        assert(t.subrange(k0, k0 + 1) =~= nl);
        lemma_find_from(t, nl, j);
        assert(find_from(t, nl, j) is Some) by {
            if find_from(t, nl, j) is None {
                assert(occurs_at(t, nl, k0));
            }
        }
        let k = find_from(t, nl, j)->0;
        assert(k <= k0) by {
            if k > k0 {
                assert(occurs_at(t, nl, k0));
            }
        }
        lemma_line_local(p, t, s, j);
        assert(line_next(t, j) == k + 1);
        let q = p.len() + j;
        assert(line_next(c, q) == q + k + 1 - j);
        assert(c.subrange(q, q + k + 1 - j) == t.subrange(j, k + 1));
        lemma_lines_local(p, t0, u, s, k + 1, acc + line_text(t, j) + nl);
        assert(p.len() + (k + 1) == q + k + 1 - j);
    }
}

/// Reading a section looks only at its own text: wherever a section text closed by a line that
/// starts `%%END` stands, whatever precedes it and whatever follows that line, reading at its
/// first byte gives what reading the text alone gives.
pub proof fn law_read_local(p: Seq<u8>, t0: Seq<u8>, u: Seq<u8>, s: Seq<u8>, name: Seq<u8>)
    requires
        t0.len() > 0,
        t0.last() == 10u8,
        crate::seq_facts::lacks(u, 10u8),
    ensures
        read_at(p + closed_by(t0, u) + s, p.len() as nat, name) == read_at(
            closed_by(t0, u),
            0,
            name,
        ),
{
    let t = closed_by(t0, u);
    let c = p + t + s;
    let nl = seq![10u8];
    let k0 = t0.len() - 1;
    assert(t.subrange(k0, k0 + 1) =~= nl);
    lemma_find_from(t, nl, 0);
    assert(find_from(t, nl, 0) is Some) by {
        if find_from(t, nl, 0) is None {
            assert(occurs_at(t, nl, k0));
        }
    }
    let k = find_from(t, nl, 0)->0;
    assert(k <= k0) by {
        if k > k0 {
            assert(occurs_at(t, nl, k0));
        }
    }
    lemma_line_local(p, t, s, 0);
    lemma_lines_local(p, t0, u, s, k + 1, seq![]);
    assert(c.subrange(p.len() as int, p.len() + k + 1) == t.subrange(0, k + 1));
}

/// Two files that agree from a section's marker line through the first line starting `%%END`
/// after it give the same when that section is read there.
pub proof fn law_read_same_text(
    p1: Seq<u8>,
    p2: Seq<u8>,
    t0: Seq<u8>,
    u: Seq<u8>,
    s1: Seq<u8>,
    s2: Seq<u8>,
    name: Seq<u8>,
)
    requires
        t0.len() > 0,
        t0.last() == 10u8,
        crate::seq_facts::lacks(u, 10u8),
    ensures
        read_at(p1 + closed_by(t0, u) + s1, p1.len() as nat, name) == read_at(
            p2 + closed_by(t0, u) + s2,
            p2.len() as nat,
            name,
        ),
{
    law_read_local(p1, t0, u, s1, name);
    law_read_local(p2, t0, u, s2, name);
}

} // verus!
