//! Where marker lines can stand in a file whose index a rebuild wrote, and what the scan finds in
//! a written block, when names may hold `'%'` and bodies may hold `%%@` and `%%END` inside lines.
use vstd::prelude::*;
use crate::bytes::{lemma_find_from, occurs_at};
use crate::canonical::{
    header_ok, lemma_block_shape, marker_line, no_mark_line, row_field, stored_body, token_ok,
};
use crate::layout::{end_tag, index_close_tag, index_open_tag, mark_tag};
use crate::scan_facts::{lemma_scan_after, shifted};
use crate::seq_facts::lacks;
use crate::writer::{
    index_block, index_row, index_rows, line_start, marker_at, scan_markers, section_block,
    MarkerEntry,
};

verus! {

/// Entries whose rows the index reader keeps apart from marker lines: fields without `':'` or a
/// line break, and names that do not start with `%%@`.
pub open spec fn rows_unmarked(es: Seq<MarkerEntry>) -> bool {
    forall|i: int|
        0 <= i < es.len() ==> row_field((#[trigger] es[i]).name) && row_field(es[i].tier)
            && !crate::bytes::starts_with(es[i].name, mark_tag())
}

/// No line of such index rows starts with `%%@`, and the rows end with a line break.
pub proof fn lemma_rows_unmarked(es: Seq<MarkerEntry>, base: nat)
    requires
        rows_unmarked(es),
    ensures
        no_mark_line(index_rows(es, base)),
        index_rows(es, base).len() == 0 || index_rows(es, base).last() == 10u8,
    decreases es.len(),
{
    if es.len() > 0 {
        let rest = es.drop_last();
        let e = es.last();
        assert(e == es[es.len() - 1]);
        assert(rows_unmarked(rest)) by {
            assert forall|i: int| 0 <= i < rest.len() implies row_field((#[trigger] rest[i]).name)
                && row_field(rest[i].tier) && !crate::bytes::starts_with(rest[i].name, mark_tag())
                by {
                assert(rest[i] == es[i]);
            }
        }
        lemma_rows_unmarked(rest, base);
        crate::index_facts::lemma_row_text(e, base);
        let t1 = index_rows(rest, base);
        let r = index_row(e, base);
        let t = t1 + r;
        assert(index_rows(es, base) == t);
        let n = e.name.len() as int;
        assert(r =~= e.name + (seq![58u8] + e.tier + seq![58u8, 118u8] + crate::numbers::decimal(
            e.version as nat,
        ) + seq![58u8] + crate::numbers::zero_pad(
            crate::numbers::decimal((base + e.pos) as nat),
            10,
        ) + seq![10u8]));
        assert(r[n] == 58u8);
        assert forall|j: int| line_start(t, j) implies !occurs_at(t, mark_tag(), j) by {
            if occurs_at(t, mark_tag(), j) {
                assert(t.subrange(j, j + 3)[0] == t[j]);
                assert(t.subrange(j, j + 3)[1] == t[j + 1]);
                assert(t.subrange(j, j + 3)[2] == t[j + 2]);
                if j + 3 <= t1.len() {
                    assert(t1.subrange(j, j + 3) =~= t.subrange(j, j + 3));
                    if j > 0 {
                        assert(t1[j - 1] == t[j - 1]);
                    }
                    assert(line_start(t1, j));
                } else if j < t1.len() {
                    assert(t[t1.len() - 1] == t1.last());
                } else if j == t1.len() {
                    if n >= 3 {
                        assert(e.name.subrange(0, 3) =~= t.subrange(j, j + 3));
                    } else {
                        assert(t[j + n] == r[n]);
                    }
                } else {
                    assert(t[j - 1] == r[j - 1 - t1.len()]);
                    assert(r.drop_last()[j - 1 - t1.len()] == r[j - 1 - t1.len()]);
                }
            }
        }
        assert(t.last() == r.last());
    }
}

/// In a file made of a header the store writes, an index block of such rows and a body, no
/// marker line stands before the body.
#[verifier::rlimit(40)]
pub proof fn lemma_head_unmarked(
    h: Seq<u8>,
    es: Seq<MarkerEntry>,
    base: nat,
    b: Seq<u8>,
    name: Seq<u8>,
)
    requires
        header_ok(h),
        rows_unmarked(es),
    ensures
        forall|j: int|
            0 <= j < h.len() + index_block(es, base).len() ==> !marker_at(
                h + index_block(es, base) + b,
                name,
                j,
            ),
{
    let ib = index_block(es, base);
    let t = index_rows(es, base);
    let f = h + ib + b;
    let hl = h.len() as int;
    lemma_rows_unmarked(es, base);
    crate::canonical::lemma_header_free(h, ib + b, mark_tag());
    assert(f =~= h + (ib + b));
    assert(ib =~= index_open_tag() + seq![10u8] + t + (index_close_tag() + seq![10u8]));
    let ts = hl + 8;
    let te = ts + t.len();
    assert forall|j: int| 0 <= j < hl + ib.len() implies !marker_at(f, name, j) by {
        if marker_at(f, name, j) {
            crate::write_facts::lemma_occurs_prefix(f, mark_tag(), name, j);
            assert(f.subrange(j, j + 3)[0] == f[j]);
            assert(f.subrange(j, j + 3)[1] == f[j + 1]);
            assert(f.subrange(j, j + 3)[2] == f[j + 2]);
            if j < hl {
            } else if j < ts {
                if j == hl {
                    assert(f[j + 2] == 73u8);
                } else {
                    assert(f[j - 1] == ib[j - 1 - hl]);
                }
            } else if j < te {
                let k = j - ts;
                if k > 0 {
                    assert(f[j - 1] == t[k - 1]);
                }
                assert(line_start(t, k));
                if k + 3 <= t.len() {
                    assert(t.subrange(k, k + 3) =~= f.subrange(j, j + 3));
                } else {
                    assert(f[te - 1] == t.last());
                }
            } else if j == te {
                assert(f[j + 2] == 69u8);
            } else {
                assert(f[j - 1] == ib[j - 1 - hl]);
            }
        }
    }
}

/// The markers of a written block followed by any text, when no body line starts `%%@`: the
/// block's own, then those of the text.
#[verifier::rlimit(40)]
pub proof fn lemma_block_then_any(
    name: Seq<u8>,
    tier: Seq<u8>,
    version: u32,
    body: Seq<u8>,
    y: Seq<u8>,
)
    requires
        token_ok(name),
        token_ok(tier),
        no_mark_line(stored_body(body)),
    ensures
        ({
            let blk = section_block(name, tier, version, body);
            scan_markers(blk + y, 0) == seq![
                MarkerEntry { name: name, tier: tier, version: version, pos: 0 },
            ] + shifted(scan_markers(y, 0), blk.len() as int)
        }),
{
    let blk = section_block(name, tier, version, body);
    let ml = marker_line(name, tier, version);
    let sb = stored_body(body);
    let by = blk + y;
    crate::readback_laws::lemma_block_scan(name, tier, version, body, y);
    lemma_block_shape(name, tier, version, body);
    crate::block_facts::lemma_marker_line_text(name, tier, version);
    let m = ml.len() as int;
    let se = m + 1 + sb.len();
    assert(blk =~= ml + seq![10u8] + sb + (end_tag() + seq![10u8]));
    assert(sb.len() > 0 && sb.last() == 10u8) by {
        if !(body.len() > 0 && body.last() == 10u8) {
            assert(sb == body.push(10u8));
        }
    }
    assert forall|j: int| 3 <= j < blk.len() implies !(line_start(by, j) && occurs_at(
        by,
        mark_tag(),
        j,
    )) by {
        if line_start(by, j) && occurs_at(by, mark_tag(), j) {
            assert(by.subrange(j, j + 3)[0] == by[j]);
            assert(by.subrange(j, j + 3)[1] == by[j + 1]);
            assert(by.subrange(j, j + 3)[2] == by[j + 2]);
            if j <= m {
                assert(by[j - 1] == ml[j - 1]);
            } else if j < se {
                let k = j - m - 1;
                if k > 0 {
                    assert(by[j - 1] == sb[k - 1]);
                }
                assert(line_start(sb, k));
                if k + 3 <= sb.len() {
                    assert(sb.subrange(k, k + 3) =~= by.subrange(j, j + 3));
                } else {
                    assert(by[se - 1] == sb.last());
                }
            } else if j == se {
                assert(by[j + 2] == 69u8);
            } else {
                assert(by[j - 1] == blk[j - 1]);
            }
        }
    }
    crate::write_laws::lemma_scan_skip_lines(by, 3, blk.len() as int);
    lemma_scan_after(blk, y, 0);
}

/// The markers of a written block alone, when no body line starts `%%@`: its own.
pub proof fn lemma_block_alone_any(name: Seq<u8>, tier: Seq<u8>, version: u32, body: Seq<u8>)
    requires
        token_ok(name),
        token_ok(tier),
        no_mark_line(stored_body(body)),
    ensures
        scan_markers(section_block(name, tier, version, body), 0) == seq![
            MarkerEntry { name: name, tier: tier, version: version, pos: 0 },
        ],
{
    let blk = section_block(name, tier, version, body);
    lemma_block_then_any(name, tier, version, body, Seq::<u8>::empty());
    assert(blk + Seq::<u8>::empty() =~= blk);
    lemma_find_from(Seq::<u8>::empty(), mark_tag(), 0);
    assert(scan_markers(Seq::<u8>::empty(), 0) =~= Seq::<MarkerEntry>::empty());
    assert(shifted(Seq::<MarkerEntry>::empty(), blk.len() as int) =~= Seq::<MarkerEntry>::empty());
}

} // verus!
