//! Rebuilding the index of a file whose body is any text: the header and the body are kept byte
//! for byte, the new index lists the body's marker lines in order, each at the offset where its
//! line starts, and a second rebuild changes nothing.
use vstd::prelude::*;
use crate::bytes::{find_from, lemma_find_from, newline_or_end, occurs_at, skip_newlines};
use crate::canonical::{entries_fit, head_clear, head_ok};
use crate::file_facts::{lemma_offset_limit, lemma_rows_len_ge, offset_limit};
use crate::index_facts::{entry_view, entry_views, lemma_index_of_block};
use crate::layout::{index_close_tag, index_of, index_open_tag, mark_tag};
use crate::numbers::pow10;
use crate::writer::{
    header_and_body, index_block, index_rows, line_start, marker_fields, rebuilt, scan_markers,
    MarkerEntry,
};

verus! {

/// Text made only of line breaks (`'\n'` and `'\r'`).
pub open spec fn line_breaks(r: Seq<u8>) -> bool {
    forall|j: int| 0 <= j < r.len() ==> r[j] == 10u8 || r[j] == 13u8
}

/// Text that does not start with a line break.
pub open spec fn starts_off_break(b: Seq<u8>) -> bool {
    b.len() == 0 || !(b[0] == 10u8 || b[0] == 13u8)
}

/// The offset base of the index block a rebuild writes for `ms` after header `h`.
pub open spec fn rebuilt_base(h: Seq<u8>, ms: Seq<MarkerEntry>) -> nat {
    (h.len() + index_block(ms, 0).len()) as nat
}

/// `%%@` starts a marker line of `b` at `p` whose fields can be read.
pub open spec fn marker_line_at(b: Seq<u8>, p: int) -> bool {
    &&& line_start(b, p)
    &&& occurs_at(b, mark_tag(), p)
    &&& marker_fields(b.subrange(p, newline_or_end(b, p))) is Some
}

proof fn lemma_skip_run(c: Seq<u8>, i: int, j: int)
    requires
        0 <= i <= j <= c.len(),
        forall|k: int| i <= k < j ==> c[k] == 10u8 || c[k] == 13u8,
        j == c.len() || !(c[j] == 10u8 || c[j] == 13u8),
    ensures
        skip_newlines(c, i) == j,
    decreases j - i,
{
    if i < j {
        lemma_skip_run(c, i + 1, j);
    }
}

/// What the scan finds in `body` from `from` on: every marker line there, in order, each with
/// the fields its line gives.
pub proof fn lemma_scan_shape(body: Seq<u8>, from: int)
    requires
        0 <= from,
    ensures
        ({
            let ms = scan_markers(body, from);
            &&& forall|i: int|
                0 <= i < ms.len() ==> from <= (#[trigger] ms[i]).pos && ms[i].pos + 3 <= body.len()
                    && marker_line_at(body, ms[i].pos) && marker_fields(
                    body.subrange(ms[i].pos, newline_or_end(body, ms[i].pos)),
                ) == Some((ms[i].name, ms[i].tier, ms[i].version))
            &&& forall|i: int, j: int| 0 <= i < j < ms.len() ==> ms[i].pos < ms[j].pos
            &&& forall|p: int|
                from <= p && #[trigger] marker_line_at(body, p) ==> exists|i: int|
                    0 <= i < ms.len() && ms[i].pos == p
        }),
    decreases body.len() - from,
{
    let ms = scan_markers(body, from);
    lemma_find_from(body, mark_tag(), from);
    match find_from(body, mark_tag(), from) {
        None => {
            assert forall|p: int| from <= p && #[trigger] marker_line_at(body, p) implies exists|
                i: int,
            | 0 <= i < ms.len() && ms[i].pos == p by {}
        },
        Some(pos) => {
            if pos + 3 > body.len() {
                assert(false);
            }
            lemma_scan_shape(body, pos + 3);
            let rest = scan_markers(body, pos + 3);
            let line = body.subrange(pos, newline_or_end(body, pos));
            assert forall|p: int| from <= p && #[trigger] marker_line_at(body, p) implies exists|
                i: int,
            | 0 <= i < ms.len() && ms[i].pos == p by {
                assert(pos <= p);
                if p == pos {
                    assert(ms[0].pos == p);
                } else if p < pos + 3 {
                    assert(body.subrange(pos, pos + 3)[1] == body[pos + 1]);
                    assert(body.subrange(pos, pos + 3)[2] == body[pos + 2]);
                    assert(body.subrange(p, p + 3)[0] == body[p]);
                    assert(body.subrange(p, p + 3)[1] == body[p + 1]);
                } else {
                    let k = choose|k: int| 0 <= k < rest.len() && rest[k].pos == p;
                    if line_start(body, pos) && marker_fields(line) is Some {
                        assert(ms[k + 1] == rest[k]);
                    } else {
                        assert(ms[k] == rest[k]);
                    }
                }
            }
            if line_start(body, pos) && marker_fields(line) is Some {
                assert forall|i: int| 0 <= i < ms.len() implies from <= (#[trigger] ms[i]).pos
                    && ms[i].pos + 3 <= body.len() && marker_line_at(body, ms[i].pos)
                    && marker_fields(body.subrange(ms[i].pos, newline_or_end(body, ms[i].pos)))
                    == Some((ms[i].name, ms[i].tier, ms[i].version)) by {
                    if i > 0 {
                        assert(ms[i] == rest[i - 1]);
                    }
                }
                assert forall|i: int, j: int| 0 <= i < j < ms.len() implies ms[i].pos
                    < ms[j].pos by {
                    assert(ms[j] == rest[j - 1]);
                    if i > 0 {
                        assert(ms[i] == rest[i - 1]);
                    }
                }
            }
        },
    }
}

/// A marker line of `b` after text ending with a line break is a marker line of the whole, with
/// the same text.
proof fn lemma_line_shift(p: Seq<u8>, b: Seq<u8>, q: int)
    requires
        p.len() > 0,
        p.last() == 10u8,
        0 <= q,
        q + 3 <= b.len(),
        line_start(b, q),
    ensures
        line_start(p + b, p.len() + q),
        occurs_at(p + b, mark_tag(), p.len() + q) == occurs_at(b, mark_tag(), q),
        (p + b).subrange(p.len() + q, newline_or_end(p + b, p.len() + q)) == b.subrange(
            q,
            newline_or_end(b, q),
        ),
{
    let n = p + b;
    let o = p.len() + q;
    if q == 0 {
        assert(n[o - 1] == p.last());
    } else {
        assert(n[o - 1] == b[q - 1]);
    }
    crate::seq_facts::lemma_occurs_shift(p, b, mark_tag(), q);
    crate::seq_facts::lemma_find_shift(p, b, seq![10u8], q);
    let ne = newline_or_end(b, q);
    lemma_find_from(b, seq![10u8], q);
    assert(newline_or_end(n, o) == p.len() + ne);
    assert(n.subrange(o, p.len() + ne) =~= b.subrange(q, ne));
}

/// The index block a rebuild writes for the marker lines of `b`, below ten-digit offsets, is as
/// long as the one listing every offset as 0 and reads back as those entries.
#[verifier::rlimit(40)]
pub proof fn lemma_rebuilt_index(h: Seq<u8>, b: Seq<u8>)
    requires
        head_ok(h),
        entries_fit(scan_markers(b, 0)),
        (h + index_block(scan_markers(b, 0), rebuilt_base(h, scan_markers(b, 0))) + b).len()
            < offset_limit(),
    ensures
        ({
            let ms = scan_markers(b, 0);
            let base2 = rebuilt_base(h, ms);
            let n = h + index_block(ms, base2) + b;
            &&& (h + index_block(ms, base2)).len() == base2
            &&& index_of(n) == (entry_views(ms, base2), true)
        }),
{
    let ms = scan_markers(b, 0);
    lemma_scan_shape(b, 0);
    let base2 = rebuilt_base(h, ms);
    let ib2 = index_block(ms, base2);
    let n = h + ib2 + b;
    lemma_offset_limit();
    assert forall|i: int| 0 <= i < ms.len() implies 0 <= #[trigger] ms[i].pos < pow10(10) by {}
    lemma_rows_len_ge(ms, base2);
    assert forall|i: int| 0 <= i < ms.len() implies 0 <= #[trigger] ms[i].pos && base2 + ms[i].pos
        < pow10(10) by {}
    crate::block_facts::lemma_rows_len(ms, base2);
    assert(crate::index_facts::offsets_fit(ms, base2)) by {
        assert forall|i: int| 0 <= i < ms.len() implies #[trigger] ms[i].pos + base2 <= u64::MAX by {}
    }
    lemma_index_of_block(h, ms, base2, b);
}

/// The file a rebuild leaves for header `h` and body `b`: the header, an index block listing
/// the body's marker lines, the body.
pub open spec fn indexed(h: Seq<u8>, b: Seq<u8>) -> Seq<u8> {
    let ms = scan_markers(b, 0);
    h + index_block(ms, rebuilt_base(h, ms)) + b
}

/// What the index of such a file says.
pub open spec fn index_exact(n: Seq<u8>, b: Seq<u8>) -> bool {
    let ms = scan_markers(b, 0);
    let idx = index_of(n).0;
    let at = n.len() - b.len();
    &&& index_of(n).1
    &&& idx.len() == ms.len()
    &&& n.subrange(at, n.len() as int) == b
    &&& forall|i: int|
        0 <= i < idx.len() ==> {
            let o = (#[trigger] idx[i]).offset as int;
            &&& o == at + ms[i].pos
            &&& line_start(n, o)
            &&& occurs_at(n, mark_tag(), o)
            &&& marker_fields(n.subrange(o, newline_or_end(n, o))) == Some(
                (idx[i].name, idx[i].tier, idx[i].version),
            )
        }
    &&& forall|i: int, j: int| 0 <= i < j < idx.len() ==> idx[i].offset < idx[j].offset
    &&& forall|p: int|
        0 <= p && #[trigger] marker_line_at(b, p) ==> exists|i: int|
            0 <= i < idx.len() && idx[i].offset == at + p
}

/// In a file whose index block a rebuild wrote for its body (below ten-digit offsets, with
/// marker names and tiers that fit an index row), the index reads back with one row per marker
/// line of the body, in file order: each row's offset is where its marker line starts, and that
/// line's fields are the row's name, tier and version.
#[verifier::rlimit(80)]
pub proof fn law_indexed_offsets(h: Seq<u8>, b: Seq<u8>)
    requires
        head_ok(h),
        entries_fit(scan_markers(b, 0)),
        indexed(h, b).len() < offset_limit(),
    ensures
        index_exact(indexed(h, b), b),
{
    let ms = scan_markers(b, 0);
    lemma_scan_shape(b, 0);
    let base2 = rebuilt_base(h, ms);
    let ib2 = index_block(ms, base2);
    let p = h + ib2;
    let n = p + b;
    lemma_rebuilt_index(h, b);
    let idx = index_of(n).0;
    assert(idx == entry_views(ms, base2));
    assert(idx.len() == ms.len());
    assert(n.subrange(p.len() as int, n.len() as int) =~= b);
    assert(p.last() == 10u8) by {
        assert(ib2.last() == 10u8);
        assert(p.last() == ib2.last());
    }
    assert forall|i: int| 0 <= i < idx.len() implies ({
        let o = (#[trigger] idx[i]).offset as int;
        &&& o == p.len() + ms[i].pos
        &&& line_start(n, o)
        &&& occurs_at(n, mark_tag(), o)
        &&& marker_fields(n.subrange(o, newline_or_end(n, o))) == Some(
            (idx[i].name, idx[i].tier, idx[i].version),
        )
    }) by {
        let e = ms[i];
        assert(idx[i] == entry_view(e, base2));
        lemma_line_shift(p, b, e.pos);
    }
    assert forall|i: int, j: int| 0 <= i < j < idx.len() implies idx[i].offset < idx[j].offset by {
        assert(idx[i] == entry_view(ms[i], base2));
        assert(idx[j] == entry_view(ms[j], base2));
    }
    assert forall|p2: int| 0 <= p2 && #[trigger] marker_line_at(b, p2) implies exists|i: int|
        0 <= i < idx.len() && idx[i].offset == n.len() - b.len() + p2 by {
        let k = choose|k: int| 0 <= k < ms.len() && ms[k].pos == p2;
        assert(idx[k] == entry_view(ms[k], base2));
    }
}

/// A file without an index block gets one from the rebuild: the first line stays the header,
/// the rest stays byte for byte, and the index block between them lists the rest's marker lines
/// (and, below ten-digit offsets and with marker names and tiers that fit an index row, reads
/// back with each row at the offset of its marker line).
pub proof fn law_rebuild_adds_index(h: Seq<u8>, rest: Seq<u8>)
    requires
        head_clear(h),
        h.len() > 0,
        forall|j: int| 0 <= j < h.len() - 1 ==> h[j] != 10u8,
        crate::canonical::free_of(h + rest, index_close_tag()),
    ensures
        rebuilt(h + rest) == indexed(h, rest),
        entries_fit(scan_markers(rest, 0)) && indexed(h, rest).len() < offset_limit() ==> index_exact(
            indexed(h, rest),
            rest,
        ),
{
    let c = h + rest;
    let nl = seq![10u8];
    let hn = h.len() as int;
    lemma_find_from(c, index_close_tag(), 0);
    assert(find_from(c, nl, 0) == Some(hn - 1)) by {
        assert forall|j: int| 0 <= j < hn - 1 implies !occurs_at(c, nl, j) by {
            if occurs_at(c, nl, j) {
                assert(c.subrange(j, j + 1)[0] == c[j]);
                assert(c[j] == h[j]);
            }
        }
        crate::bytes::lemma_find_from_skip(c, nl, 0, hn - 1);
        assert(c[hn - 1] == h[hn - 1]);
        assert(c.subrange(hn - 1, hn) =~= nl);
        crate::seq_facts::lemma_find_here(c, nl, hn - 1);
    }
    assert(c.subrange(0, hn) =~= h);
    assert(c.subrange(hn, c.len() as int) =~= rest);
    if entries_fit(scan_markers(rest, 0)) && indexed(h, rest).len() < offset_limit() {
        crate::canonical::lemma_head_clear_ok(h);
        law_indexed_offsets(h, rest);
    }
}

/// The rows of an index block end at its closing tag: no `%%END-INDEX` starts in them before it.
pub open spec fn rows_closed(rows: Seq<u8>) -> bool {
    find_from(rows + index_close_tag(), index_close_tag(), 0) == Some(rows.len() as int)
}

/// An index block with any rows: `%%INDEX`, the rows, `%%END-INDEX`, each tag on a line of its
/// own.
pub open spec fn raw_index_block(rows: Seq<u8>) -> Seq<u8> {
    index_open_tag() + seq![10u8] + rows + index_close_tag() + seq![10u8]
}

/// The header and the body of a file made of a header, an index block with any rows, line
/// breaks and a body.
#[verifier::rlimit(40)]
pub proof fn lemma_header_and_body_raw(h: Seq<u8>, rows: Seq<u8>, r: Seq<u8>, b: Seq<u8>)
    requires
        head_clear(h),
        rows_closed(rows),
        line_breaks(r),
        starts_off_break(b),
    ensures
        header_and_body(h + raw_index_block(rows) + r + b) == (h, b),
{
    let ib = raw_index_block(rows);
    let c = h + ib + r + b;
    let hl = h.len() as int;
    let open = index_open_tag();
    let close = index_close_tag();
    let pre = h + open + seq![10u8];
    let post = rows + close + (seq![10u8] + r + b);
    assert(c =~= pre + post);
    assert(c =~= h + (ib + r + b));
    // the opening tag
    crate::canonical::lemma_header_free(h, ib + r + b, open);
    assert(c.subrange(hl, hl + 7) =~= open);
    crate::bytes::lemma_find_from_skip(c, open, 0, hl);
    crate::seq_facts::lemma_find_here(c, open, hl);
    // the closing tag
    crate::canonical::lemma_header_free(h, ib + r + b, close);
    assert forall|j: int| 0 <= j < pre.len() implies !occurs_at(c, close, j) by {
        if occurs_at(c, close, j) && j >= hl {
            assert(c.subrange(j, j + 11)[0] == c[j]);
            assert(c.subrange(j, j + 11)[1] == c[j + 1]);
            assert(c.subrange(j, j + 11)[2] == c[j + 2]);
            if j == hl {
                assert(c[j + 2] == 73u8);
            } else if j == hl + 1 {
                assert(c[j + 1] == 73u8);
            } else {
                assert(c[j] == pre[j]);
            }
        }
    }
    crate::bytes::lemma_find_from_skip(c, close, 0, pre.len() as int);
    crate::seq_facts::lemma_find_shift(pre, post, close, 0);
    crate::read_laws::lemma_find_in_prefix(
        rows + close,
        seq![10u8] + r + b,
        close,
        0,
        rows.len() as int,
    );
    assert(rows + close + (seq![10u8] + r + b) =~= post);
    let e: int = (pre.len() + rows.len()) as int;
    assert(find_from(c, close, 0) == Some(e));
    // the line breaks after it
    let start: int = e + 11;
    let end: int = (hl + ib.len() + r.len()) as int;
    assert(c[start] == 10u8);
    assert forall|k: int| start <= k < end implies c[k] == 10u8 || c[k] == 13u8 by {
        if k > start {
            assert(c[k] == r[k - hl - ib.len()]);
        }
    }
    if end < c.len() {
        assert(c[end] == b[0]);
    }
    lemma_skip_run(c, start, end);
    assert(c.subrange(0, hl) =~= h);
    assert(c.subrange(end, c.len() as int) =~= b);
}

/// Rebuilding the index of a file made of a header, one index block (whatever its rows hold, up
/// to its closing tag), line breaks and any body keeps the header and the body byte for byte and
/// puts between them an index block listing the body's marker lines in order. Rebuilding again
/// changes nothing, unless a marker name or tier puts `%%END-INDEX` into the new rows.
pub proof fn law_rebuild_any_index(h: Seq<u8>, rows: Seq<u8>, r: Seq<u8>, b: Seq<u8>)
    requires
        head_clear(h),
        rows_closed(rows),
        line_breaks(r),
        starts_off_break(b),
    ensures
        rebuilt(h + raw_index_block(rows) + r + b) == indexed(h, b),
        ({
            let ms = scan_markers(b, 0);
            rows_closed(index_rows(ms, rebuilt_base(h, ms))) ==> rebuilt(indexed(h, b)) == indexed(
                h,
                b,
            )
        }),
{
    lemma_header_and_body_raw(h, rows, r, b);
    let ms = scan_markers(b, 0);
    let rows2 = index_rows(ms, rebuilt_base(h, ms));
    if rows_closed(rows2) {
        assert(indexed(h, b) =~= h + raw_index_block(rows2) + Seq::<u8>::empty() + b);
        lemma_header_and_body_raw(h, rows2, Seq::<u8>::empty(), b);
    }
}

/// After a rebuild of such a file (below ten-digit offsets, with marker names and tiers that fit
/// an index row), the index reads back with one row per marker line of the body, in file order,
/// each at the offset where its marker line starts, with that line's fields.
pub proof fn law_rebuilt_offsets_any_index(h: Seq<u8>, rows: Seq<u8>, r: Seq<u8>, b: Seq<u8>)
    requires
        head_clear(h),
        rows_closed(rows),
        line_breaks(r),
        starts_off_break(b),
        entries_fit(scan_markers(b, 0)),
        indexed(h, b).len() < offset_limit(),
    ensures
        rebuilt(h + raw_index_block(rows) + r + b) == indexed(h, b),
        index_exact(indexed(h, b), b),
{
    law_rebuild_any_index(h, rows, r, b);
    crate::canonical::lemma_head_clear_ok(h);
    law_indexed_offsets(h, b);
}

} // verus!
