//! The index rebuild's marker scan over text made of parts: after whole lines, the markers of
//! the parts follow one another.
use vstd::prelude::*;
use crate::bytes::{find_from, lemma_find_from, newline_or_end, occurs_at};
use crate::canonical::lemma_scan_skip;
use crate::layout::mark_tag;
use crate::read_laws::lemma_find_in_prefix;
use crate::seq_facts::lemma_find_shift;
use crate::writer::{line_start, marker_fields, scan_markers, MarkerEntry};

verus! {

/// The entries moved `d` bytes further.
pub open spec fn shifted(ms: Seq<MarkerEntry>, d: int) -> Seq<MarkerEntry> {
    ms.map_values(|e: MarkerEntry| MarkerEntry { pos: e.pos + d, ..e })
}

/// Text that is empty or ends with a line break.
pub open spec fn whole_lines(a: Seq<u8>) -> bool {
    a.len() == 0 || a.last() == 10u8
}

/// A line of `b` read inside `a + b`.
pub proof fn lemma_line_after(a: Seq<u8>, b: Seq<u8>, q: int)
    requires
        whole_lines(a),
        0 <= q < b.len(),
    ensures
        line_start(a + b, a.len() + q) == line_start(b, q),
        newline_or_end(a + b, a.len() + q) == a.len() + newline_or_end(b, q),
        (a + b).subrange(a.len() + q, newline_or_end(a + b, a.len() + q)) == b.subrange(
            q,
            newline_or_end(b, q),
        ),
{
    let c = a + b;
    let o = a.len() + q;
    if q == 0 && a.len() > 0 {
        assert(c[o - 1] == a.last());
    } else if q > 0 {
        assert(c[o - 1] == b[q - 1]);
    }
    lemma_find_shift(a, b, seq![10u8], q);
    lemma_find_from(b, seq![10u8], q);
    let ne = newline_or_end(b, q);
    assert(c.subrange(o, a.len() + ne) =~= b.subrange(q, ne));
}

/// A line of `a`, which ends with a line break, read inside `a + b`.
proof fn lemma_line_before(a: Seq<u8>, b: Seq<u8>, q: int)
    requires
        a.len() > 0,
        a.last() == 10u8,
        0 <= q < a.len(),
    ensures
        line_start(a + b, q) == line_start(a, q),
        newline_or_end(a + b, q) == newline_or_end(a, q),
        newline_or_end(a, q) < a.len(),
        (a + b).subrange(q, newline_or_end(a + b, q)) == a.subrange(q, newline_or_end(a, q)),
{
    let c = a + b;
    let nl = seq![10u8];
    let k0 = a.len() - 1;
    assert(a.subrange(k0, k0 + 1) =~= nl);
    lemma_find_from(a, nl, q);
    if find_from(a, nl, q) is None {
        assert(occurs_at(a, nl, k0));
    }
    let k = find_from(a, nl, q)->0;
    lemma_find_in_prefix(a, b, nl, q, k);
    if q > 0 {
        assert(c[q - 1] == a[q - 1]);
    }
    assert(c.subrange(q, k) =~= a.subrange(q, k));
}

/// Scanning `a + b` from inside `b` finds the markers of `b`, moved by the length of `a`.
pub proof fn lemma_scan_after(a: Seq<u8>, b: Seq<u8>, j: int)
    requires
        whole_lines(a),
        0 <= j,
    ensures
        scan_markers(a + b, a.len() + j) == shifted(scan_markers(b, j), a.len() as int),
    decreases b.len() - j,
{
    let c = a + b;
    let d = a.len() as int;
    lemma_find_shift(a, b, mark_tag(), j);
    lemma_find_from(b, mark_tag(), j);
    match find_from(b, mark_tag(), j) {
        None => {
            assert(shifted(scan_markers(b, j), d) =~= Seq::<MarkerEntry>::empty());
        },
        Some(pos) => {
            assert(pos + 3 <= b.len());
            lemma_scan_after(a, b, pos + 3);
            lemma_line_after(a, b, pos);
            let rest = scan_markers(b, pos + 3);
            if line_start(b, pos) {
                match marker_fields(b.subrange(pos, newline_or_end(b, pos))) {
                    Some((n, t, v)) => {
                        let e = MarkerEntry { name: n, tier: t, version: v, pos: pos };
                        assert(shifted(seq![e] + rest, d) =~= seq![
                            MarkerEntry { name: n, tier: t, version: v, pos: d + pos },
                        ] + shifted(rest, d));
                    },
                    None => {},
                }
            }
        },
    }
}

/// Scanning `a + b`, where `a` ends with a line break, from inside `a` finds the markers of `a`
/// from there, then those of `b`.
pub proof fn lemma_scan_concat_from(a: Seq<u8>, b: Seq<u8>, from: int)
    requires
        whole_lines(a),
        0 <= from <= a.len(),
    ensures
        scan_markers(a + b, from) == scan_markers(a, from) + shifted(
            scan_markers(b, 0),
            a.len() as int,
        ),
    decreases a.len() - from,
{
    let c = a + b;
    let d = a.len() as int;
    lemma_find_from(a, mark_tag(), from);
    match find_from(a, mark_tag(), from) {
        Some(pos) => {
            lemma_find_in_prefix(a, b, mark_tag(), from, pos);
            lemma_scan_concat_from(a, b, pos + 3);
            lemma_line_before(a, b, pos);
            let rest = scan_markers(a, pos + 3);
            let tail = shifted(scan_markers(b, 0), d);
            if line_start(a, pos) {
                match marker_fields(a.subrange(pos, newline_or_end(a, pos))) {
                    Some((n, t, v)) => {
                        let e = MarkerEntry { name: n, tier: t, version: v, pos: pos };
                        assert(seq![e] + rest + tail =~= seq![e] + (rest + tail));
                    },
                    None => {},
                }
            }
        },
        None => {
            assert forall|k: int| from <= k < d implies !occurs_at(c, mark_tag(), k) by {
                assert(!occurs_at(a, mark_tag(), k));
                if occurs_at(c, mark_tag(), k) {
                    if k + 3 <= d {
                        assert(c.subrange(k, k + 3) =~= a.subrange(k, k + 3));
                    } else {
                        assert(c.subrange(k, k + 3)[d - 1 - k] == c[d - 1]);
                        assert(c[d - 1] == a.last());
                        assert(mark_tag()[d - 1 - k] != 10u8);
                    }
                }
            }
            lemma_scan_skip(c, from, d);
            lemma_scan_after(a, b, 0);
            assert(scan_markers(a, from) =~= Seq::<MarkerEntry>::empty());
            assert(Seq::<MarkerEntry>::empty() + shifted(scan_markers(b, 0), d) =~= shifted(
                scan_markers(b, 0),
                d,
            ));
        },
    }
}

/// The markers of `a + b`, where `a` ends with a line break: those of `a`, then those of `b`.
pub proof fn lemma_scan_concat(a: Seq<u8>, b: Seq<u8>)
    requires
        whole_lines(a),
    ensures
        scan_markers(a + b, 0) == scan_markers(a, 0) + shifted(scan_markers(b, 0), a.len() as int),
{
    lemma_scan_concat_from(a, b, 0);
}

} // verus!
