//! Writing one section of a file whose index matches its body, whatever else the body holds:
//! every other section keeps its row, its fields and what reading it gives.
use vstd::prelude::*;
use vstd::utf8::valid_utf8;
use crate::bytes::{find_from, lemma_find_from, lemma_find_from_skip, newline_or_end, occurs_at};
use crate::canonical::lemma_scan_skip;
use crate::layout::{line_next, line_text, mark_tag, read_at, read_lines, ReadOutcome};
use crate::read_laws::lemma_find_in_prefix;
use crate::rebuild_laws::marker_line_at;
use crate::seq_facts::lemma_find_shift;
use crate::unicode::{next_token, ws_len};
use crate::writer::{
    index_block, index_rows, lemma_marker_from, lemma_marker_from_skip, line_start, marker_at, marker_fields,
    marker_pos, marker_version, scan_markers, section_block, section_end, write_defined, written,
    MarkerEntry,
};
use crate::block_facts::{crlf_free, lemma_read_section};
use crate::canonical::{
    entries_fit, header_ok, no_end_line, no_mark_line, row_field, row_name, stored_body, token_ok,
    Block,
};
use crate::frame_facts::rows_unmarked;
use crate::file_facts::offset_limit;
use crate::index_facts::{entry_view, entry_views};
use crate::layout::{end_tag, index_of};
use crate::read_laws::{closed_text, law_read_local};
use crate::rebuild_laws::{
    indexed, law_rebuild_any_index, lemma_rebuilt_index, lemma_scan_shape, raw_index_block,
    rebuilt_base, rows_closed, starts_off_break,
};
use crate::store::{after_write, is_tier};
use crate::store_laws::lemma_tier_field_ok;
use crate::scan_facts::{lemma_scan_after, shifted, whole_lines};

verus! {

/// A marker line of section `name` is a marker line the scan reads.
pub proof fn lemma_marker_line_read(c: Seq<u8>, name: Seq<u8>, k: int)
    requires
        marker_at(c, name, k),
        token_ok(name),
    ensures
        marker_line_at(c, k),
{
    let n = name.len() as int;
    let y = name.push(32u8);
    let mp = mark_tag() + name;
    assert(c.subrange(k, k + 3 + n) == mp);
    assert forall|i: int| 0 <= i < n implies c[k + 3 + i] == name[i] && y[i] == name[i] by {
        assert(c.subrange(k, k + 3 + n)[3 + i] == mp[3 + i]);
    }
    assert forall|i: int| 0 <= i < 3 implies c[k + i] == mark_tag()[i] by {
        assert(c.subrange(k, k + 3 + n)[i] == mp[i]);
    }
    assert(occurs_at(c, mark_tag(), k)) by {
        assert(c.subrange(k, k + 3) =~= mark_tag());
    }
    assert(ws_len(y, 0) == 0);
    assert(y[n] == 32u8);
    if k + 3 + n < c.len() {
        assert(ws_len(c, k + 3 + n) > 0);
    }
    assert(ws_len(c, k + 3) == 0);
    let nl = seq![10u8];
    lemma_find_from(c, nl, k);
    let ne = newline_or_end(c, k);
    assert(ne >= k + 4) by {
        if let Some(j) = find_from(c, nl, k) {
            if j < k + 4 {
                assert(c.subrange(j, j + 1)[0] == c[j]);
                if j >= k + 3 {
                    assert(ws_len(y, 0) > 0);
                }
            }
        }
    }
    let t = c.subrange(k, ne);
    assert(ws_len(t, 3) == 0) by {
        if ws_len(t, 3) > 0 {
            assert(t[3] == c[k + 3]);
            if 4 < t.len() {
                assert(t[4] == c[k + 4]);
            }
            if 5 < t.len() {
                assert(t[5] == c[k + 5]);
            }
        }
    }
    assert(next_token(t, 3) is Some);
    assert(t.subrange(0, 3) =~= mark_tag()) by {
        assert forall|i: int| 0 <= i < 3 implies t[i] == mark_tag()[i] by {
            assert(t[i] == c[k + i]);
        }
    }
    assert(marker_fields(t) is Some);
}

/// A line break added at the end of text changes none of the markers the scan finds.
pub proof fn lemma_scan_push_newline(b: Seq<u8>, from: int)
    requires
        0 <= from,
    ensures
        scan_markers(b.push(10u8), from) == scan_markers(b, from),
    decreases b.len() - from,
{
    let c = b.push(10u8);
    let nl = seq![10u8];
    assert(c =~= b + nl);
    lemma_find_from(b, mark_tag(), from);
    match find_from(b, mark_tag(), from) {
        None => {
            lemma_find_from(c, mark_tag(), from);
            if let Some(j) = find_from(c, mark_tag(), from) {
                assert(!occurs_at(b, mark_tag(), j));
                if j + 3 <= b.len() {
                    assert(c.subrange(j, j + 3) =~= b.subrange(j, j + 3));
                } else {
                    assert(c.subrange(j, j + 3)[b.len() - j] == c[b.len() as int]);
                    assert(mark_tag()[b.len() - j] != 10u8);
                }
            }
        },
        Some(pos) => {
            lemma_find_in_prefix(b, nl, mark_tag(), from, pos);
            lemma_scan_push_newline(b, pos + 3);
            lemma_find_from(b, nl, pos);
            match find_from(b, nl, pos) {
                Some(k) => {
                    lemma_find_in_prefix(b, nl, nl, pos, k);
                },
                None => {
                    assert(c.subrange(b.len() as int, b.len() + 1int) =~= nl);
                    lemma_find_from(c, nl, pos);
                    assert forall|j: int| pos <= j < b.len() implies !occurs_at(c, nl, j) by {
                        assert(!occurs_at(b, nl, j));
                        if occurs_at(c, nl, j) {
                            assert(c.subrange(j, j + 1) =~= b.subrange(j, j + 1));
                        }
                    }
                    lemma_find_from_skip(c, nl, pos, b.len() as int);
                    crate::seq_facts::lemma_find_here(c, nl, b.len() as int);
                },
            }
            let ne = newline_or_end(b, pos);
            assert(newline_or_end(c, pos) == ne);
            assert(c.subrange(pos, ne) =~= b.subrange(pos, ne));
            if pos > 0 {
                assert(c[pos - 1] == b[pos - 1]);
            }
        },
    }
}

/// Scanning from `i` finds what scanning from `j` finds when no line between them starts with
/// `%%@`.
pub proof fn lemma_scan_skip_lines(body: Seq<u8>, i: int, j: int)
    requires
        0 <= i <= j,
        forall|k: int| i <= k < j ==> !(line_start(body, k) && occurs_at(body, mark_tag(), k)),
    ensures
        scan_markers(body, i) == scan_markers(body, j),
    decreases j - i,
{
    lemma_find_from(body, mark_tag(), i);
    match find_from(body, mark_tag(), i) {
        None => {
            lemma_find_from(body, mark_tag(), j);
            if let Some(k) = find_from(body, mark_tag(), j) {
                assert(false);
            }
        },
        Some(pos) => {
            if pos >= j {
                lemma_find_from_skip(body, mark_tag(), i, j);
            } else {
                assert(!line_start(body, pos));
                if pos + 3 <= j {
                    lemma_scan_skip_lines(body, pos + 3, j);
                } else {
                    assert forall|k: int| j <= k < pos + 3 implies !occurs_at(body, mark_tag(), k) by {
                        assert(body.subrange(pos, pos + 3)[2] == body[pos + 2]);
                        assert(body.subrange(pos, pos + 3)[1] == body[pos + 1]);
                        if occurs_at(body, mark_tag(), k) {
                            assert(body.subrange(k, k + 3)[0] == body[k]);
                            assert(body.subrange(k, k + 3)[1] == body[k + 1]);
                        }
                    }
                    lemma_scan_skip(body, j, pos + 3);
                }
            }
        },
    }
}

/// Reading body lines looks only forward: what stands before the text read does not matter.
proof fn lemma_lines_after(a: Seq<u8>, t: Seq<u8>, j: int, acc: Seq<u8>)
    requires
        0 <= j,
    ensures
        read_lines(a + t, a.len() + j, acc) == read_lines(t, j, acc),
    decreases t.len() - j,
{
    let c = a + t;
    let q = a.len() + j;
    let nl = seq![10u8];
    if j < t.len() {
        lemma_find_shift(a, t, nl, j);
        lemma_find_from(t, nl, j);
        let next = line_next(t, j);
        assert(line_next(c, q) == a.len() + next);
        if let Some(k) = find_from(t, nl, j) {
            assert(c.subrange(q, a.len() + k) =~= t.subrange(j, k));
            if k > j {
                assert(c[a.len() + k - 1] == t[k - 1]);
                assert(c.subrange(q, a.len() + k - 1) =~= t.subrange(j, k - 1));
            }
        } else {
            assert(c.subrange(q, c.len() as int) =~= t.subrange(j, t.len() as int));
        }
        assert(line_text(c, q) == line_text(t, j));
        if j < next <= t.len() {
            assert(c.subrange(q, a.len() + next) =~= t.subrange(j, next));
            lemma_lines_after(a, t, next, acc + line_text(t, j) + nl);
        }
    }
}

/// Reading a section looks only forward from its offset.
pub proof fn lemma_read_after(a: Seq<u8>, t: Seq<u8>, j: int, name: Seq<u8>)
    requires
        0 <= j,
    ensures
        read_at(a + t, (a.len() + j) as nat, name) == read_at(t, j as nat, name),
{
    let c = a + t;
    let q = a.len() + j;
    let nl = seq![10u8];
    if j < t.len() {
        lemma_find_shift(a, t, nl, j);
        lemma_find_from(t, nl, j);
        let next = line_next(t, j);
        assert(line_next(c, q) == a.len() + next);
        assert(c.subrange(q, a.len() + next) =~= t.subrange(j, next));
        lemma_lines_after(a, t, next, seq![]);
    }
}

// ---- the files and writes the law speaks of -------------------------------------------------

/// Where a write of section `name` starts to change `c`: the section's marker line, or the end
/// of the file when the section is appended.
pub open spec fn write_start(c: Seq<u8>, name: Seq<u8>) -> int {
    match marker_pos(c, name) {
        Some(s) => s,
        None => c.len() as int,
    }
}

/// A `%%END` line, with its line break, starts at `m`.
pub open spec fn end_line_at(c: Seq<u8>, m: int) -> bool {
    m > 0 && c[m - 1] == 10u8 && occurs_at(c, end_tag() + seq![10u8], m)
}

/// The text from `o` on is closed by a `%%END` line that ends by `s`.
pub open spec fn closed_before(c: Seq<u8>, o: int, s: int) -> bool {
    exists|m: int| o < m && m + 6 <= s && #[trigger] end_line_at(c, m)
}

/// The section a write of `name` replaces holds no other line starting `%%@`, and its text,
/// with the line breaks after its `%%END`, ends with a line break or at the end of the file.
pub open spec fn section_alone(c: Seq<u8>, name: Seq<u8>) -> bool {
    match marker_pos(c, name) {
        Some(s) => {
            let e = section_end(c, s);
            &&& forall|p: int| s < p < e ==> !(line_start(c, p) && occurs_at(c, mark_tag(), p))
            &&& (e == c.len() || c[e - 1] == 10u8)
        },
        None => true,
    }
}

/// Each section listed before the place a write of `name` changes is closed by its own `%%END`
/// line before that place.
pub open spec fn others_closed(c: Seq<u8>, name: Seq<u8>) -> bool {
    forall|i: int|
        0 <= i < index_of(c).0.len() && (#[trigger] index_of(c).0[i]).offset < write_start(c, name)
            ==> closed_before(c, index_of(c).0[i].offset as int, write_start(c, name))
}

/// The row of the section a write of `name` replaces, or the number of rows when it appends.
pub open spec fn written_slot(c: Seq<u8>, name: Seq<u8>) -> int {
    match marker_pos(c, name) {
        Some(s) => choose|i: int| 0 <= i < index_of(c).0.len() && index_of(c).0[i].offset == s,
        None => index_of(c).0.len() as int,
    }
}

/// The writes the frame law speaks of: a header of the kind the store writes; a body that does
/// not start with a line break, whose marker names and tiers fit index rows, whose names do not
/// start with `%%@`, and whose rows hold no `%%END-INDEX`; a name that is one token fitting an
/// index row; one of the three tiers; a body written with no line starting `%%@` or `%%END`.
pub open spec fn frame_inputs(h: Seq<u8>, b: Seq<u8>, name: Seq<u8>, tier: Seq<u8>, body: Seq<u8>) -> bool {
    let ms = scan_markers(b, 0);
    &&& header_ok(h)
    &&& starts_off_break(b)
    &&& entries_fit(ms)
    &&& rows_unmarked(ms)
    &&& rows_closed(index_rows(ms, rebuilt_base(h, ms)))
    &&& token_ok(name)
    &&& row_name(name)
    &&& is_tier(tier)
    &&& valid_utf8(body)
    &&& no_mark_line(stored_body(body))
    &&& no_end_line(stored_body(body))
}

// ---- steps ---------------------------------------------------------------------------------

/// Reading at `o`, where the text up to a closing `%%END` line is the same as at `o2` in
/// another file, gives the same in both.
proof fn lemma_closed_read(f: Seq<u8>, f2: Seq<u8>, o: int, o2: int, m: int, n: Seq<u8>)
    requires
        0 <= o < m,
        m + 6 <= f.len(),
        end_line_at(f, m),
        0 <= o2,
        o2 + (m + 6 - o) <= f2.len(),
        f2.subrange(o2, o2 + (m + 6 - o)) == f.subrange(o, m + 6),
    ensures
        read_at(f2, o2 as nat, n) == read_at(f, o as nat, n),
{
    let t0 = f.subrange(o, m);
    let tail = end_tag() + seq![10u8];
    assert(f.subrange(m, m + 6) == tail);
    assert(t0.last() == f[m - 1]);
    assert(f.subrange(o, m + 6) =~= f.subrange(o, m) + f.subrange(m, m + 6));
    assert(closed_text(t0) == f.subrange(o, m + 6));
    assert(f =~= f.subrange(0, o) + f.subrange(o, m + 6) + f.subrange(m + 6, f.len() as int));
    assert(closed_text(t0) =~= crate::read_laws::closed_by(t0, Seq::<u8>::empty()));
    law_read_local(f.subrange(0, o), t0, Seq::<u8>::empty(), f.subrange(m + 6, f.len() as int), n);
    let d = m + 6 - o;
    assert(f2.subrange(o2, o2 + (m - o)) =~= t0) by {
        assert forall|i: int| 0 <= i < m - o implies f2.subrange(o2, o2 + (m - o))[i] == t0[i] by {
            assert(f2.subrange(o2, o2 + d)[i] == f.subrange(o, m + 6)[i]);
        }
    }
    assert(f2.subrange(o2 + (m - o), o2 + d) =~= tail) by {
        assert forall|i: int| 0 <= i < 6 implies f2.subrange(o2 + (m - o), o2 + d)[i] == tail[i] by {
            assert(f2.subrange(o2, o2 + d)[m - o + i] == f.subrange(o, m + 6)[m - o + i]);
        }
    }
    assert(f2.subrange(o2, o2 + d) =~= f2.subrange(o2, o2 + (m - o)) + f2.subrange(o2 + (m - o), o2 + d));
    assert(closed_text(t0) == f2.subrange(o2, o2 + d));
    assert(f2 =~= f2.subrange(0, o2) + f2.subrange(o2, o2 + d) + f2.subrange(o2 + d, f2.len() as int));
    law_read_local(f2.subrange(0, o2), t0, Seq::<u8>::empty(), f2.subrange(o2 + d, f2.len() as int), n);
}

/// A file whose index matches its body: the index reads back as the body's markers, and the
/// marker line of any section stands in the body.
proof fn lemma_indexed_facts(h: Seq<u8>, b: Seq<u8>, name: Seq<u8>)
    requires
        header_ok(h),
        entries_fit(scan_markers(b, 0)),
        rows_unmarked(scan_markers(b, 0)),
        indexed(h, b).len() < offset_limit(),
    ensures
        ({
            let ms = scan_markers(b, 0);
            let base = rebuilt_base(h, ms);
            let p = h + index_block(ms, base);
            let f = indexed(h, b);
            &&& f == p + b
            &&& p.len() == base
            &&& p.len() > 0 && p.last() == 10u8
            &&& index_of(f) == (entry_views(ms, base), true)
            &&& marker_pos(f, name) matches Some(s) ==> p.len() <= s && marker_at(f, name, s)
                && forall|j: int| p.len() <= j < s ==> !marker_at(f, name, j)
        }),
{
    let ms = scan_markers(b, 0);
    let base = rebuilt_base(h, ms);
    let ib = index_block(ms, base);
    let p = h + ib;
    let f = p + b;
    crate::canonical::lemma_header_ok_head(h);
    lemma_rebuilt_index(h, b);
    assert(ib.last() == 10u8);
    assert(p.last() == ib.last());
    crate::frame_facts::lemma_head_unmarked(h, ms, base, b, name);
    lemma_marker_from_skip(f, name, 0, p.len() as int);
    lemma_marker_from(f, name, p.len() as int);
}

/// The entry the scan makes of the marker line at `s`.
pub open spec fn entry_at(c: Seq<u8>, s: int, pos: int) -> MarkerEntry {
    let fs = marker_fields(c.subrange(s, newline_or_end(c, s)))->0;
    MarkerEntry { name: fs.0, tier: fs.1, version: fs.2, pos: pos }
}

/// The version a write of `name` gives the section it replaces.
pub open spec fn replaced_version(c: Seq<u8>, s: int) -> u32 {
    (marker_version(c.subrange(s, c.len() as int)) + 1) as u32
}

/// The markers of a section that holds no other marker line, followed by any text.
#[verifier::rlimit(40)]
proof fn lemma_section_scan(pre: Seq<u8>, sy: Seq<u8>, slen: int, name: Seq<u8>)
    requires
        marker_at(pre + sy, name, pre.len() as int),
        token_ok(name),
        whole_lines(pre),
        3 <= slen <= sy.len(),
        forall|p: int|
            pre.len() < p < pre.len() + slen ==> !(line_start(pre + sy, p) && occurs_at(
                pre + sy,
                mark_tag(),
                p,
            )),
        slen == sy.len() || sy[slen - 1] == 10u8,
    ensures
        scan_markers(sy, 0) == seq![entry_at(pre + sy, pre.len() as int, 0)] + shifted(
            scan_markers(sy.subrange(slen, sy.len() as int), 0),
            slen,
        ),
{
    let f = pre + sy;
    let s = pre.len() as int;
    let sec = sy.subrange(0, slen);
    let y = sy.subrange(slen, sy.len() as int);
    lemma_marker_line_read(f, name, s);
    crate::scan_facts::lemma_line_after(pre, sy, 0);
    crate::seq_facts::lemma_occurs_shift(pre, sy, mark_tag(), 0);
    crate::seq_facts::lemma_find_here(sy, mark_tag(), 0);
    assert(scan_markers(sy, 0) == seq![entry_at(f, s, 0)] + scan_markers(sy, 3));
    assert forall|j: int| 3 <= j < slen implies !(line_start(sy, j) && occurs_at(sy, mark_tag(), j))
        by {
        crate::seq_facts::lemma_occurs_shift(pre, sy, mark_tag(), j);
        assert(f[s + j - 1] == sy[j - 1]);
        assert(!(line_start(f, s + j) && occurs_at(f, mark_tag(), s + j)));
    }
    lemma_scan_skip_lines(sy, 3, slen);
    if y.len() == 0 {
        lemma_find_from(sy, mark_tag(), slen);
        assert(scan_markers(sy, slen) =~= Seq::<MarkerEntry>::empty());
        lemma_find_from(y, mark_tag(), 0);
        assert(shifted(scan_markers(y, 0), slen) =~= Seq::<MarkerEntry>::empty());
    } else {
        assert(sy =~= sec + y);
        assert(sec.last() == sy[slen - 1]);
        lemma_scan_after(sec, y, 0);
    }
}

/// A replacing write cuts the body into the text before the section, the section, and the
/// text after it, and puts the new block in the middle.
#[verifier::rlimit(60)]
proof fn lemma_replace_parts(
    p: Seq<u8>,
    b: Seq<u8>,
    name: Seq<u8>,
    tier: Seq<u8>,
    body: Seq<u8>,
    s: int,
)
    requires
        p.len() > 0,
        whole_lines(p),
        token_ok(name),
        marker_pos(p + b, name) == Some(s),
        p.len() <= s,
        marker_at(p + b, name, s),
        write_defined(p + b, name),
        section_alone(p + b, name),
    ensures
        ({
            let f = p + b;
            let q = s - p.len();
            let e = section_end(f, s) - p.len();
            let x = b.subrange(0, q);
            let sec = b.subrange(q, e);
            let y = b.subrange(e, b.len() as int);
            let blk = section_block(name, tier, replaced_version(f, s), body);
            &&& 0 <= q < e <= b.len()
            &&& b == x + sec + y
            &&& written(f, name, tier, body) == p + (x + blk + y)
            &&& whole_lines(x)
            &&& x.len() > 0 ==> x[0] == b[0]
            &&& scan_markers(sec + y, 0) == seq![entry_at(f, s, 0)] + shifted(
                scan_markers(y, 0),
                sec.len() as int,
            )
        }),
{
    let f = p + b;
    let q = s - p.len();
    lemma_find_from(f, end_tag(), s);
    let k = find_from(f, end_tag(), s)->0;
    assert(k >= s + 3) by {
        assert(f.subrange(s, s + 3 + name.len())[2] == f[s + 2]);
        assert(f.subrange(s, s + 3 + name.len())[1] == f[s + 1]);
        assert(f.subrange(k, k + 5)[0] == f[k]);
        assert(f.subrange(k, k + 5)[1] == f[k + 1]);
        assert(f.subrange(k, k + 5)[2] == f[k + 2]);
    }
    crate::bytes::lemma_skip_newlines(f, k + 5);
    let ef = section_end(f, s);
    let e = ef - p.len();
    let x = b.subrange(0, q);
    let sec = b.subrange(q, e);
    let y = b.subrange(e, b.len() as int);
    assert(b =~= x + sec + y);
    assert(f.subrange(0, s) =~= p + x);
    assert(f.subrange(ef, f.len() as int) =~= y);
    let blk = section_block(name, tier, replaced_version(f, s), body);
    assert(written(f, name, tier, body) =~= p + (x + blk + y));
    if q > 0 {
        assert(x.last() == f[s - 1]);
    }
    let sy = sec + y;
    assert(f =~= (p + x) + sy);
    assert(whole_lines(p + x));
    if ef < f.len() {
        assert(sy[sec.len() - 1] == f[ef - 1]);
    }
    lemma_section_scan(p + x, sy, sec.len() as int, name);
    assert(sy.subrange(sec.len() as int, sy.len() as int) =~= y);
}

/// What a write of `name` with `tier` that turned `f` into `new` kept: both indexes read back;
/// the written section's row (the one it replaced, or a new last row) has the name, the tier and
/// the version written; every other row keeps its place, its name, tier and version, and what
/// reading it gives.
pub open spec fn write_kept(f: Seq<u8>, new: Seq<u8>, name: Seq<u8>, tier: Seq<u8>) -> bool {
    let idx = index_of(f).0;
    let idx2 = index_of(new).0;
    let w = written_slot(f, name);
    &&& index_of(f).1
    &&& index_of(new).1
    &&& idx2.len() == (if marker_pos(f, name) is Some {
        idx.len() as int
    } else {
        idx.len() + 1int
    })
    &&& 0 <= w < idx2.len()
    &&& idx2[w].name == name
    &&& idx2[w].tier == tier
    &&& idx2[w].version == match marker_pos(f, name) {
        Some(s) => replaced_version(f, s),
        None => 1u32,
    }
    &&& forall|i: int|
        0 <= i < idx.len() && i != w ==> {
            &&& (#[trigger] idx2[i]).name == idx[i].name
            &&& idx2[i].tier == idx[i].tier
            &&& idx2[i].version == idx[i].version
            &&& read_at(new, idx2[i].offset as nat, idx[i].name) == read_at(
                f,
                idx[i].offset as nat,
                idx[i].name,
            )
        }
}

/// Reading the written section after the write gives the body written (with a final line break
/// added if missing).
pub open spec fn write_reads_back(f: Seq<u8>, new: Seq<u8>, name: Seq<u8>, body: Seq<u8>) -> bool {
    read_at(new, index_of(new).0[written_slot(f, name)].offset as nat, name) == ReadOutcome::Body(
        stored_body(body),
    )
}

/// The markers before and after a replacing write.
proof fn lemma_replace_lists(x: Seq<u8>, sec: Seq<u8>, y: Seq<u8>, e0: MarkerEntry, nb: Block)
    requires
        whole_lines(x),
        scan_markers(sec + y, 0) == seq![e0] + shifted(scan_markers(y, 0), sec.len() as int),
        e0.pos == 0,
        token_ok(nb.name),
        token_ok(nb.tier),
        no_mark_line(stored_body(nb.body)),
    ensures
        ({
            let blk = section_block(nb.name, nb.tier, nb.version, nb.body);
            let xl = x.len() as int;
            &&& scan_markers(x + sec + y, 0) == scan_markers(x, 0) + seq![
                MarkerEntry { pos: xl, ..e0 },
            ] + shifted(scan_markers(y, 0), xl + sec.len())
            &&& scan_markers(x + blk + y, 0) == scan_markers(x, 0) + seq![
                MarkerEntry { name: nb.name, tier: nb.tier, version: nb.version, pos: xl },
            ] + shifted(scan_markers(y, 0), xl + blk.len())
        }),
{
    let blk = section_block(nb.name, nb.tier, nb.version, nb.body);
    let xl = x.len() as int;
    let sy = scan_markers(y, 0);
    assert(x + sec + y =~= x + (sec + y));
    crate::scan_facts::lemma_scan_concat(x, sec + y);
    assert(shifted(seq![e0] + shifted(sy, sec.len() as int), xl) =~= seq![
        MarkerEntry { pos: xl, ..e0 },
    ] + shifted(sy, xl + sec.len()));
    assert(x + blk + y =~= x + (blk + y));
    crate::scan_facts::lemma_scan_concat(x, blk + y);
    crate::frame_facts::lemma_block_then_any(nb.name, nb.tier, nb.version, nb.body, y);
    let en = MarkerEntry { name: nb.name, tier: nb.tier, version: nb.version, pos: 0 };
    assert(shifted(seq![en] + shifted(sy, blk.len() as int), xl) =~= seq![
        MarkerEntry { name: nb.name, tier: nb.tier, version: nb.version, pos: xl },
    ] + shifted(sy, xl + blk.len()));
    assert(scan_markers(x, 0) + seq![MarkerEntry { pos: xl, ..e0 }] + shifted(sy, xl + sec.len())
        =~= scan_markers(x, 0) + (seq![MarkerEntry { pos: xl, ..e0 }] + shifted(sy, xl + sec.len())));
    assert(scan_markers(x, 0) + seq![
        MarkerEntry { name: nb.name, tier: nb.tier, version: nb.version, pos: xl },
    ] + shifted(sy, xl + blk.len()) =~= scan_markers(x, 0) + (seq![
        MarkerEntry { name: nb.name, tier: nb.tier, version: nb.version, pos: xl },
    ] + shifted(sy, xl + blk.len())));
}

/// A row before the written section reads the same after the write, its text being closed
/// before the section.
proof fn lemma_row_before(
    f: Seq<u8>,
    new: Seq<u8>,
    p: Seq<u8>,
    p2: Seq<u8>,
    x: Seq<u8>,
    rest: Seq<u8>,
    rest2: Seq<u8>,
    pos: int,
    m: int,
    n: Seq<u8>,
)
    requires
        f == p + x + rest,
        new == p2 + x + rest2,
        0 <= pos,
        p.len() + pos < m,
        m + 6 <= p.len() + x.len(),
        end_line_at(f, m),
    ensures
        read_at(new, (p2.len() + pos) as nat, n) == read_at(f, (p.len() + pos) as nat, n),
{
    let o = p.len() + pos;
    let o2 = p2.len() + pos;
    let d = m + 6 - o;
    assert(new.subrange(o2, o2 + d) =~= f.subrange(o, m + 6)) by {
        assert forall|i: int| 0 <= i < d implies #[trigger] new.subrange(o2, o2 + d)[i] == f.subrange(
            o,
            m + 6,
        )[i] by {
            assert(new[o2 + i] == x[pos + i]);
            assert(f[o + i] == x[pos + i]);
        }
    }
    lemma_closed_read(f, new, o, o2, m, n);
}

/// A row after the written section reads the same after the write: reading looks only forward.
proof fn lemma_row_after(f: Seq<u8>, new: Seq<u8>, a: Seq<u8>, a2: Seq<u8>, y: Seq<u8>, j: int, n: Seq<u8>)
    requires
        f == a + y,
        new == a2 + y,
        0 <= j,
    ensures
        read_at(new, (a2.len() + j) as nat, n) == read_at(f, (a.len() + j) as nat, n),
{
    lemma_read_after(a, y, j, n);
    lemma_read_after(a2, y, j, n);
}

/// The body after a replacing write: its markers can stand in the index, and it does not start
/// with a line break.
proof fn lemma_replace_body(
    b: Seq<u8>,
    x: Seq<u8>,
    sec: Seq<u8>,
    y: Seq<u8>,
    e0: MarkerEntry,
    nb: Block,
)
    requires
        b == x + sec + y,
        starts_off_break(b),
        entries_fit(scan_markers(b, 0)),
        whole_lines(x),
        scan_markers(sec + y, 0) == seq![e0] + shifted(scan_markers(y, 0), sec.len() as int),
        e0.pos == 0,
        token_ok(nb.name),
        row_name(nb.name),
        token_ok(nb.tier),
        row_field(nb.tier),
        no_mark_line(stored_body(nb.body)),
    ensures
        ({
            let blk = section_block(nb.name, nb.tier, nb.version, nb.body);
            let b2 = x + blk + y;
            &&& entries_fit(scan_markers(b2, 0))
            &&& starts_off_break(b2)
        }),
{
    let blk = section_block(nb.name, nb.tier, nb.version, nb.body);
    let b2 = x + blk + y;
    lemma_replace_lists(x, sec, y, e0, nb);
    let ms = scan_markers(b, 0);
    let ms2 = scan_markers(b2, 0);
    let sx = scan_markers(x, 0);
    let sy = scan_markers(y, 0);
    let w = sx.len() as int;
    lemma_scan_shape(y, 0);
    assert forall|i: int| 0 <= i < ms2.len() implies row_name((#[trigger] ms2[i]).name) && row_field(
        ms2[i].tier,
    ) && ms2[i].pos >= 0 by {
        if i < w {
            assert(ms2[i] == sx[i]);
            assert(ms[i] == sx[i]);
        } else if i > w {
            let j = i - w - 1;
            assert(ms2[i] == shifted(sy, (x.len() + blk.len()) as int)[j]);
            assert(ms[i] == shifted(sy, (x.len() + sec.len()) as int)[j]);
            assert(sy[j].pos >= 0);
        }
    }
    assert(blk[0] == 37u8) by {
        assert(blk[0] == mark_tag()[0]);
    }
    if x.len() > 0 {
        assert(b2[0] == x[0]);
        assert(b[0] == x[0]);
    } else {
        assert(b2[0] == blk[0]);
    }
}

/// The rows around a replaced one: each keeps its fields, and reads the same, those before it
/// being closed before it.
#[verifier::rlimit(60)]
proof fn lemma_rows_kept(
    f: Seq<u8>,
    new: Seq<u8>,
    p: Seq<u8>,
    p2: Seq<u8>,
    x: Seq<u8>,
    sec: Seq<u8>,
    blk: Seq<u8>,
    y: Seq<u8>,
    sx: Seq<MarkerEntry>,
    sy: Seq<MarkerEntry>,
    e0: MarkerEntry,
    e1: MarkerEntry,
)
    requires
        f == p + x + sec + y,
        new == p2 + x + blk + y,
        f.len() < offset_limit(),
        new.len() < offset_limit(),
        forall|i: int| 0 <= i < sx.len() ==> 0 <= (#[trigger] sx[i]).pos && sx[i].pos + 3 <= x.len(),
        forall|j: int| 0 <= j < sy.len() ==> 0 <= (#[trigger] sy[j]).pos && sy[j].pos < y.len(),
        forall|i: int|
            0 <= i < sx.len() ==> closed_before(f, p.len() + (#[trigger] sx[i]).pos, (p.len() + x.len()) as int),
    ensures
        ({
            let ms = sx + seq![e0] + shifted(sy, (x.len() + sec.len()) as int);
            let ms2 = sx + seq![e1] + shifted(sy, (x.len() + blk.len()) as int);
            let idx = entry_views(ms, p.len());
            let idx2 = entry_views(ms2, p2.len());
            forall|i: int|
                0 <= i < idx.len() && i != sx.len() ==> {
                    &&& (#[trigger] idx2[i]).name == idx[i].name
                    &&& idx2[i].tier == idx[i].tier
                    &&& idx2[i].version == idx[i].version
                    &&& read_at(new, idx2[i].offset as nat, idx[i].name) == read_at(
                        f,
                        idx[i].offset as nat,
                        idx[i].name,
                    )
                }
        }),
{
    let xl = x.len() as int;
    let ms = sx + seq![e0] + shifted(sy, (x.len() + sec.len()) as int);
    let ms2 = sx + seq![e1] + shifted(sy, (x.len() + blk.len()) as int);
    let idx = entry_views(ms, p.len());
    let idx2 = entry_views(ms2, p2.len());
    let w = sx.len() as int;
    assert forall|i: int| 0 <= i < idx.len() && i != w implies {
        &&& (#[trigger] idx2[i]).name == idx[i].name
        &&& idx2[i].tier == idx[i].tier
        &&& idx2[i].version == idx[i].version
        &&& read_at(new, idx2[i].offset as nat, idx[i].name) == read_at(
            f,
            idx[i].offset as nat,
            idx[i].name,
        )
    } by {
        assert(idx[i] == entry_view(ms[i], p.len()));
        assert(idx2[i] == entry_view(ms2[i], p2.len()));
        if i < w {
            assert(ms[i] == sx[i]);
            assert(ms2[i] == sx[i]);
            let pos = sx[i].pos;
            assert(closed_before(f, p.len() + sx[i].pos, (p.len() + x.len()) as int));
            let m = choose|m: int| p.len() + sx[i].pos < m && m + 6 <= p.len() + x.len() && #[trigger] end_line_at(f, m);
            assert(f == p + x + (sec + y));
            assert(new == p2 + x + (blk + y));
            lemma_row_before(f, new, p, p2, x, sec + y, blk + y, pos, m, idx[i].name);
        } else {
            let j = i - w - 1;
            assert(ms[i] == shifted(sy, (x.len() + sec.len()) as int)[j]);
            assert(ms2[i] == shifted(sy, (x.len() + blk.len()) as int)[j]);
            lemma_row_after(f, new, p + x + sec, p2 + x + blk, y, sy[j].pos, idx[i].name);
        }
    }
}

/// The end of a replacing write: the written row and the rows around it.
#[verifier::rlimit(60)]
proof fn lemma_replace_finish(
    f: Seq<u8>,
    new: Seq<u8>,
    name: Seq<u8>,
    tier: Seq<u8>,
    p: Seq<u8>,
    p2: Seq<u8>,
    x: Seq<u8>,
    sec: Seq<u8>,
    blk: Seq<u8>,
    y: Seq<u8>,
    sx: Seq<MarkerEntry>,
    sy: Seq<MarkerEntry>,
    e0: MarkerEntry,
    s: int,
    body: Seq<u8>,
)
    requires
        f == p + x + sec + y,
        new == p2 + x + blk + y,
        blk == section_block(name, tier, replaced_version(f, s), body),
        token_ok(name),
        token_ok(tier),
        valid_utf8(body),
        no_end_line(stored_body(body)),
        f.len() < offset_limit(),
        new.len() < offset_limit(),
        marker_pos(f, name) == Some(s),
        s == p.len() + x.len(),
        e0.pos == x.len(),
        index_of(f) == (entry_views(sx + seq![e0] + shifted(sy, (x.len() + sec.len()) as int), p.len()), true),
        index_of(new) == (entry_views(
            sx + seq![
                MarkerEntry {
                    name: name,
                    tier: tier,
                    version: replaced_version(f, s),
                    pos: x.len() as int,
                },
            ] + shifted(sy, (x.len() + blk.len()) as int),
            p2.len(),
        ), true),
        forall|i: int| 0 <= i < sx.len() ==> 0 <= (#[trigger] sx[i]).pos && sx[i].pos + 3 <= x.len(),
        forall|j: int| 0 <= j < sy.len() ==> 0 <= (#[trigger] sy[j]).pos && sy[j].pos < y.len(),
        sec.len() > 0,
        others_closed(f, name),
    ensures
        write_kept(f, new, name, tier),
        crlf_free(stored_body(body)) ==> write_reads_back(f, new, name, body),
{
    let xl = x.len() as int;
    let v = replaced_version(f, s);
    let e1 = MarkerEntry { name: name, tier: tier, version: v, pos: xl };
    let ms = sx + seq![e0] + shifted(sy, (x.len() + sec.len()) as int);
    let ms2 = sx + seq![e1] + shifted(sy, (x.len() + blk.len()) as int);
    let idx = index_of(f).0;
    let idx2 = index_of(new).0;
    let w = sx.len() as int;
    let base = p.len();
    assert(ms[w] == e0);
    assert(idx[w] == entry_view(ms[w], base));
    assert(idx[w].offset == s);
    let c = written_slot(f, name);
    assert(0 <= c < idx.len() && idx[c].offset == s);
    assert(c == w) by {
        assert(idx[c] == entry_view(ms[c], base));
        if c < w {
            assert(ms[c] == sx[c]);
            assert(base + ms[c].pos < s);
        } else if c > w {
            assert(ms[c] == shifted(sy, (x.len() + sec.len()) as int)[c - w - 1]);
            assert(s < base + ms[c].pos < f.len());
        }
    }
    assert(ms2[w] == e1);
    assert(idx2[w] == entry_view(ms2[w], p2.len()));
    assert forall|i: int| 0 <= i < sx.len() implies closed_before(f, p.len() + (#[trigger] sx[i]).pos, (p.len() + x.len()) as int) by {
        assert(ms[i] == sx[i]);
        assert(idx[i] == entry_view(ms[i], base));
        assert(idx[i].offset as int == p.len() + sx[i].pos);
        assert(idx[i].offset < write_start(f, name));
        assert(closed_before(f, idx[i].offset as int, s));
        let m = choose|m: int| idx[i].offset < m && m + 6 <= s && #[trigger] end_line_at(f, m);
        assert(p.len() + sx[i].pos < m && m + 6 <= p.len() + x.len() && end_line_at(f, m));
    }
    lemma_rows_kept(f, new, p, p2, x, sec, blk, y, sx, sy, e0, e1);
    if crlf_free(stored_body(body)) {
        let o2 = p2.len() + xl;
        assert(idx2[w].offset as int == o2);
        assert(new.subrange(o2, o2 + blk.len()) =~= blk);
        lemma_read_section(new, o2, name, tier, v, body);
    }
}

/// The pieces of a replacing write, before the rebuild: the file as header, index block, text
/// before the section, the section and the text after it; the body the write leaves; the markers
/// of both bodies.
#[verifier::rlimit(100)]
proof fn lemma_replace_cut(h: Seq<u8>, b: Seq<u8>, name: Seq<u8>, tier: Seq<u8>, body: Seq<u8>)
    requires
        frame_inputs(h, b, name, tier, body),
        write_defined(indexed(h, b), name),
        section_alone(indexed(h, b), name),
        indexed(h, b).len() < offset_limit(),
        marker_pos(indexed(h, b), name) is Some,
    ensures
        ({
            let f = indexed(h, b);
            let ms = scan_markers(b, 0);
            let p = h + index_block(ms, rebuilt_base(h, ms));
            let s = marker_pos(f, name)->0;
            let q = s - p.len();
            let e = section_end(f, s) - p.len();
            let x = b.subrange(0, q);
            let sec = b.subrange(q, e);
            let y = b.subrange(e, b.len() as int);
            let blk = section_block(name, tier, replaced_version(f, s), body);
            let b2 = x + blk + y;
            let sx = scan_markers(x, 0);
            let sy = scan_markers(y, 0);
            let e0 = MarkerEntry { pos: x.len() as int, ..entry_at(f, s, 0) };
            &&& f == p + x + sec + y
            &&& written(f, name, tier, body) == p + b2
            &&& s == p.len() + x.len()
            &&& sec.len() > 0
            &&& ms == sx + seq![e0] + shifted(sy, (x.len() + sec.len()) as int)
            &&& scan_markers(b2, 0) == sx + seq![
                MarkerEntry {
                    name: name,
                    tier: tier,
                    version: replaced_version(f, s),
                    pos: x.len() as int,
                },
            ] + shifted(sy, (x.len() + blk.len()) as int)
            &&& index_of(f) == (entry_views(ms, p.len()), true)
            &&& entries_fit(scan_markers(b2, 0))
            &&& starts_off_break(b2)
            &&& forall|i: int|
                0 <= i < sx.len() ==> 0 <= (#[trigger] sx[i]).pos && sx[i].pos + 3 <= x.len()
            &&& forall|j: int| 0 <= j < sy.len() ==> 0 <= (#[trigger] sy[j]).pos && sy[j].pos < y.len()
        }),
{
    let f = indexed(h, b);
    let ms = scan_markers(b, 0);
    let base = rebuilt_base(h, ms);
    let p = h + index_block(ms, base);
    lemma_indexed_facts(h, b, name);
    let s = marker_pos(f, name)->0;
    lemma_replace_parts(p, b, name, tier, body, s);
    let q = s - p.len();
    let e = section_end(f, s) - p.len();
    let x = b.subrange(0, q);
    let sec = b.subrange(q, e);
    let y = b.subrange(e, b.len() as int);
    let v = replaced_version(f, s);
    let nb = Block { name: name, tier: tier, version: v, body: body, gap: false };
    lemma_tier_field_ok(tier);
    crate::canonical::lemma_field_fits(tier);
    let e0 = entry_at(f, s, 0);
    lemma_replace_lists(x, sec, y, e0, nb);
    lemma_replace_body(b, x, sec, y, e0, nb);
    lemma_scan_shape(x, 0);
    lemma_scan_shape(y, 0);
    assert(f == p + x + sec + y);
}

/// The pieces of a replacing write: the file before and after as header, index block, text
/// before the section, the section (or the new block), and the text after it; and both indexes.
#[verifier::rlimit(100)]
proof fn lemma_replace_setup(h: Seq<u8>, b: Seq<u8>, name: Seq<u8>, tier: Seq<u8>, body: Seq<u8>)
    requires
        frame_inputs(h, b, name, tier, body),
        write_defined(indexed(h, b), name),
        section_alone(indexed(h, b), name),
        indexed(h, b).len() < offset_limit(),
        after_write(indexed(h, b), name, tier, body).len() < offset_limit(),
        marker_pos(indexed(h, b), name) is Some,
    ensures
        ({
            let f = indexed(h, b);
            let ms = scan_markers(b, 0);
            let p = h + index_block(ms, rebuilt_base(h, ms));
            let s = marker_pos(f, name)->0;
            let q = s - p.len();
            let e = section_end(f, s) - p.len();
            let x = b.subrange(0, q);
            let sec = b.subrange(q, e);
            let y = b.subrange(e, b.len() as int);
            let blk = section_block(name, tier, replaced_version(f, s), body);
            let b2 = x + blk + y;
            let ms2 = scan_markers(b2, 0);
            let p2 = h + index_block(ms2, rebuilt_base(h, ms2));
            let new = after_write(f, name, tier, body);
            let sx = scan_markers(x, 0);
            let sy = scan_markers(y, 0);
            let e0 = MarkerEntry { pos: x.len() as int, ..entry_at(f, s, 0) };
            &&& f == p + x + sec + y
            &&& new == p2 + x + blk + y
            &&& s == p.len() + x.len()
            &&& sec.len() > 0
            &&& index_of(f) == (entry_views(
                sx + seq![e0] + shifted(sy, (x.len() + sec.len()) as int),
                p.len(),
            ), true)
            &&& index_of(new) == (entry_views(
                sx + seq![
                    MarkerEntry {
                        name: name,
                        tier: tier,
                        version: replaced_version(f, s),
                        pos: x.len() as int,
                    },
                ] + shifted(sy, (x.len() + blk.len()) as int),
                p2.len(),
            ), true)
            &&& forall|i: int|
                0 <= i < sx.len() ==> 0 <= (#[trigger] sx[i]).pos && sx[i].pos + 3 <= x.len()
            &&& forall|j: int| 0 <= j < sy.len() ==> 0 <= (#[trigger] sy[j]).pos && sy[j].pos < y.len()
        }),
{
    lemma_replace_cut(h, b, name, tier, body);
    let f = indexed(h, b);
    let ms = scan_markers(b, 0);
    let base = rebuilt_base(h, ms);
    let p = h + index_block(ms, base);
    let s = marker_pos(f, name)->0;
    let q = s - p.len();
    let e = section_end(f, s) - p.len();
    let x = b.subrange(0, q);
    let y = b.subrange(e, b.len() as int);
    let blk = section_block(name, tier, replaced_version(f, s), body);
    let b2 = x + blk + y;
    let ms2 = scan_markers(b2, 0);
    let base2 = rebuilt_base(h, ms2);
    let p2 = h + index_block(ms2, base2);
    assert(p + b2 =~= h + raw_index_block(index_rows(ms, base)) + Seq::<u8>::empty() + b2);
    crate::canonical::lemma_header_ok_head(h);
    law_rebuild_any_index(h, index_rows(ms, base), Seq::<u8>::empty(), b2);
    let new = after_write(f, name, tier, body);
    assert(new == p2 + b2);
    lemma_rebuilt_index(h, b2);
    assert(new == p2 + x + blk + y);
}

/// Writing a section that the file holds, with the other sections before it closed.
proof fn lemma_replace_case(h: Seq<u8>, b: Seq<u8>, name: Seq<u8>, tier: Seq<u8>, body: Seq<u8>)
    requires
        frame_inputs(h, b, name, tier, body),
        write_defined(indexed(h, b), name),
        section_alone(indexed(h, b), name),
        others_closed(indexed(h, b), name),
        indexed(h, b).len() < offset_limit(),
        after_write(indexed(h, b), name, tier, body).len() < offset_limit(),
        marker_pos(indexed(h, b), name) is Some,
    ensures
        write_kept(indexed(h, b), after_write(indexed(h, b), name, tier, body), name, tier),
        crlf_free(stored_body(body)) ==> write_reads_back(
            indexed(h, b),
            after_write(indexed(h, b), name, tier, body),
            name,
            body,
        ),
{
    lemma_replace_setup(h, b, name, tier, body);
    lemma_tier_field_ok(tier);
    let f = indexed(h, b);
    let ms = scan_markers(b, 0);
    let p = h + index_block(ms, rebuilt_base(h, ms));
    let s = marker_pos(f, name)->0;
    let q = s - p.len();
    let e = section_end(f, s) - p.len();
    let x = b.subrange(0, q);
    let sec = b.subrange(q, e);
    let y = b.subrange(e, b.len() as int);
    let blk = section_block(name, tier, replaced_version(f, s), body);
    let b2 = x + blk + y;
    let ms2 = scan_markers(b2, 0);
    let p2 = h + index_block(ms2, rebuilt_base(h, ms2));
    let new = after_write(f, name, tier, body);
    let e0 = MarkerEntry { pos: x.len() as int, ..entry_at(f, s, 0) };
    lemma_replace_finish(
        f,
        new,
        name,
        tier,
        p,
        p2,
        x,
        sec,
        blk,
        y,
        scan_markers(x, 0),
        scan_markers(y, 0),
        e0,
        s,
        body,
    );
}

/// The body after an appending write: the old body, a line break unless the body was empty, and
/// the new block.
pub open spec fn appended_body(b: Seq<u8>, blk: Seq<u8>) -> Seq<u8> {
    if b.len() == 0 {
        blk
    } else {
        b + seq![10u8] + blk
    }
}

/// The pieces of an appending write: the file before and after, and both indexes.
#[verifier::rlimit(100)]
proof fn lemma_append_setup(h: Seq<u8>, b: Seq<u8>, name: Seq<u8>, tier: Seq<u8>, body: Seq<u8>)
    requires
        frame_inputs(h, b, name, tier, body),
        indexed(h, b).len() < offset_limit(),
        after_write(indexed(h, b), name, tier, body).len() < offset_limit(),
        marker_pos(indexed(h, b), name) is None,
    ensures
        ({
            let f = indexed(h, b);
            let ms = scan_markers(b, 0);
            let p = h + index_block(ms, rebuilt_base(h, ms));
            let blk = section_block(name, tier, 1, body);
            let b2 = appended_body(b, blk);
            let ms2 = scan_markers(b2, 0);
            let p2 = h + index_block(ms2, rebuilt_base(h, ms2));
            let new = after_write(f, name, tier, body);
            &&& f == p + b
            &&& new == p2 + b2
            &&& b.len() > 0 ==> b2 == b + (seq![10u8] + blk)
            &&& index_of(f) == (entry_views(ms, p.len()), true)
            &&& index_of(new) == (entry_views(
                ms + seq![
                    MarkerEntry {
                        name: name,
                        tier: tier,
                        version: 1,
                        pos: b2.len() - blk.len(),
                    },
                ],
                p2.len(),
            ), true)
            &&& forall|i: int|
                0 <= i < ms.len() ==> 0 <= (#[trigger] ms[i]).pos && ms[i].pos + 3 <= b.len()
        }),
{
    let f = indexed(h, b);
    let ms = scan_markers(b, 0);
    let base = rebuilt_base(h, ms);
    let p = h + index_block(ms, base);
    lemma_indexed_facts(h, b, name);
    lemma_tier_field_ok(tier);
    let nb = Block { name: name, tier: tier, version: 1, body: body, gap: false };
    let blk = section_block(name, tier, 1, body);
    let b2 = appended_body(b, blk);
    let e1 = MarkerEntry { name: name, tier: tier, version: 1, pos: b2.len() - blk.len() };
    crate::canonical::lemma_field_fits(tier);
    crate::frame_facts::lemma_block_alone_any(name, tier, 1, body);
    lemma_scan_shape(b, 0);
    crate::canonical::lemma_header_ok_head(h);
    let nl = seq![10u8];
    assert(written(f, name, tier, body) == f + nl + blk);
    let ms2 = scan_markers(b2, 0);
    if b.len() == 0 {
        lemma_find_from(b, mark_tag(), 0);
        assert(ms =~= Seq::<MarkerEntry>::empty());
        assert(f + nl + blk =~= h + raw_index_block(index_rows(ms, base)) + nl + blk);
        assert(ms2 =~= ms + seq![e1]);
        assert(blk[0] == mark_tag()[0]);
        law_rebuild_any_index(h, index_rows(ms, base), nl, blk);
    } else {
        assert(b2 =~= b.push(10u8) + blk);
        crate::scan_facts::lemma_scan_concat(b.push(10u8), blk);
        lemma_scan_push_newline(b, 0);
        assert(shifted(seq![MarkerEntry { name: name, tier: tier, version: 1, pos: 0 }], b.len() + 1int)
            =~= seq![e1]);
        assert(ms2 == ms + seq![e1]);
        assert(f + nl + blk =~= h + raw_index_block(index_rows(ms, base)) + Seq::<u8>::empty() + b2);
        assert(b2[0] == b[0]);
        law_rebuild_any_index(h, index_rows(ms, base), Seq::<u8>::empty(), b2);
        assert(b2 =~= b + (nl + blk));
    }
    assert(entries_fit(ms2)) by {
        assert forall|i: int| 0 <= i < ms2.len() implies row_name((#[trigger] ms2[i]).name)
            && row_field(ms2[i].tier) && ms2[i].pos >= 0 by {
            if i < ms.len() {
                assert(ms2[i] == ms[i]);
            } else {
                assert(ms2[i] == e1);
            }
        }
    }
    lemma_rebuilt_index(h, b2);
}

/// Writing a section that the file lacks, with every section closed before the end.
#[verifier::rlimit(60)]
proof fn lemma_append_case(h: Seq<u8>, b: Seq<u8>, name: Seq<u8>, tier: Seq<u8>, body: Seq<u8>)
    requires
        frame_inputs(h, b, name, tier, body),
        others_closed(indexed(h, b), name),
        indexed(h, b).len() < offset_limit(),
        after_write(indexed(h, b), name, tier, body).len() < offset_limit(),
        marker_pos(indexed(h, b), name) is None,
    ensures
        write_kept(indexed(h, b), after_write(indexed(h, b), name, tier, body), name, tier),
        crlf_free(stored_body(body)) ==> write_reads_back(
            indexed(h, b),
            after_write(indexed(h, b), name, tier, body),
            name,
            body,
        ),
{
    lemma_append_setup(h, b, name, tier, body);
    lemma_tier_field_ok(tier);
    let f = indexed(h, b);
    let ms = scan_markers(b, 0);
    let p = h + index_block(ms, rebuilt_base(h, ms));
    let blk = section_block(name, tier, 1, body);
    let b2 = appended_body(b, blk);
    let ms2 = scan_markers(b2, 0);
    let p2 = h + index_block(ms2, rebuilt_base(h, ms2));
    let new = after_write(f, name, tier, body);
    let e1 = MarkerEntry { name: name, tier: tier, version: 1, pos: b2.len() - blk.len() };
    let idx = index_of(f).0;
    let idx2 = index_of(new).0;
    let w = ms.len() as int;
    let ms2x = ms + seq![e1];
    assert(idx2[w] == entry_view(ms2x[w], p2.len()));
    assert(ms2x[w] == e1);
    assert forall|i: int| 0 <= i < idx.len() && i != w implies {
        &&& (#[trigger] idx2[i]).name == idx[i].name
        &&& idx2[i].tier == idx[i].tier
        &&& idx2[i].version == idx[i].version
        &&& read_at(new, idx2[i].offset as nat, idx[i].name) == read_at(
            f,
            idx[i].offset as nat,
            idx[i].name,
        )
    } by {
        assert(idx[i] == entry_view(ms[i], p.len()));
        assert(idx2[i] == entry_view(ms2x[i], p2.len()));
        assert(ms2x[i] == ms[i]);
        let pos = ms[i].pos;
        assert(idx[i].offset as int == p.len() + pos);
        assert(idx[i].offset < write_start(f, name));
        assert(closed_before(f, idx[i].offset as int, f.len() as int));
        let m = choose|m: int| idx[i].offset < m && m + 6 <= f.len() && #[trigger] end_line_at(f, m);
        assert(f == p + b + Seq::<u8>::empty());
        assert(new == p2 + b + (seq![10u8] + blk));
        lemma_row_before(f, new, p, p2, b, Seq::<u8>::empty(), seq![10u8] + blk, pos, m, idx[i].name);
    }
    if crlf_free(stored_body(body)) {
        let o2 = p2.len() + b2.len() - blk.len();
        assert(idx2[w].offset as int == o2);
        assert(new.subrange(o2, o2 + blk.len()) =~= blk);
        lemma_read_section(new, o2, name, tier, 1, body);
    }
}

/// A write keeps every other section, on any file whose index matches its body (a header line
/// or more, the index block a rebuild writes, then any text): the written section gets the row it
/// had, or a new last row, with the name, tier and version written, and every other row keeps
/// its place, its name, tier and version, and what reading it gives. Names may hold `'%'`, and
/// bodies `%%@` or `%%END` inside their lines. Left out are the inputs on which this fails: the
/// section replaced holds another line starting `%%@` before its `%%END` (the write takes that
/// line with it), or its text does not end with a line break before more text; a section before
/// it (before the end, when the section is appended) is not closed by a `%%END` line of its own
/// before it (reading it would run into the written text); the body written has a line starting
/// `%%@` (a new row) or `%%END`; a name or tier that does not fit an index row, or a row holding
/// `%%END-INDEX`. Marker names starting `%%@` are left out too. Reading the written section then
/// gives the body written, unless that body holds a `"\r\n"` for line reading to fold.
pub proof fn law_write_keeps_others_any(
    h: Seq<u8>,
    b: Seq<u8>,
    name: Seq<u8>,
    tier: Seq<u8>,
    body: Seq<u8>,
)
    requires
        frame_inputs(h, b, name, tier, body),
        write_defined(indexed(h, b), name),
        section_alone(indexed(h, b), name),
        others_closed(indexed(h, b), name),
        indexed(h, b).len() < offset_limit(),
        after_write(indexed(h, b), name, tier, body).len() < offset_limit(),
    ensures
        write_kept(indexed(h, b), after_write(indexed(h, b), name, tier, body), name, tier),
        crlf_free(stored_body(body)) ==> write_reads_back(
            indexed(h, b),
            after_write(indexed(h, b), name, tier, body),
            name,
            body,
        ),
{
    if marker_pos(indexed(h, b), name) is Some {
        lemma_replace_case(h, b, name, tier, body);
    } else {
        lemma_append_case(h, b, name, tier, body);
    }
}

} // verus!
