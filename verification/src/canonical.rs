//! The files the store writes: a header line, the index block, then section blocks. What holds
//! of them is proved here and stated in `store_laws`.
use vstd::prelude::*;
use vstd::utf8::valid_utf8;
use crate::bytes::{find_from, newline_or_end, occurs_at, starts_with};
use crate::layout::{end_tag, mark_tag, version_tag};
use crate::numbers::{decimal, digits_value, lemma_decimal_digits, lemma_decimal_value, parse_unsigned};
use crate::seq_facts::{
    lacks, lacks_from, lemma_find_here, lemma_find_skip_prefix, lemma_next_token_at,
    lemma_skip_ws_none, lemma_skip_ws_one, lemma_token_end_at,
};
use crate::unicode::{next_token, skip_ws, token_end, ws_len};
use crate::writer::{
    header_and_body, index_block, index_row, index_rows, marker_fields, rebuilt, scan_markers,
    section_block, version_of_token, MarkerEntry,
};
use crate::layout::{index_close_tag, index_open_tag};
use crate::bytes::skip_newlines;

verus! {

/// One section block of a file: its marker fields, its body, and whether a blank line comes
/// before it.
pub struct Block {
    pub name: Seq<u8>,
    pub tier: Seq<u8>,
    pub version: u32,
    pub body: Seq<u8>,
    pub gap: bool,
}

/// The body as a block holds it: with a final `'\n'` added when missing.
pub open spec fn stored_body(body: Seq<u8>) -> Seq<u8> {
    if body.len() > 0 && body.last() == 10u8 {
        body
    } else {
        body.push(10u8)
    }
}

/// `%%@<name> <tier> v:<version>`.
pub open spec fn marker_line(name: Seq<u8>, tier: Seq<u8>, version: u32) -> Seq<u8> {
    mark_tag() + name + seq![32u8] + tier + seq![32u8] + version_tag() + decimal(version as nat)
}

pub open spec fn gap_text(b: Block) -> Seq<u8> {
    if b.gap {
        seq![10u8]
    } else {
        seq![]
    }
}

pub open spec fn block_text(b: Block) -> Seq<u8> {
    gap_text(b) + section_block(b.name, b.tier, b.version, b.body)
}

/// The blocks one after another.
pub open spec fn blocks_text(bs: Seq<Block>) -> Seq<u8>
    decreases bs.len(),
{
    if bs.len() == 0 {
        seq![]
    } else {
        block_text(bs[0]) + blocks_text(bs.drop_first())
    }
}

/// The marker of each block, its position counted from `at`.
pub open spec fn block_entries(bs: Seq<Block>, at: int) -> Seq<MarkerEntry>
    decreases bs.len(),
{
    if bs.len() == 0 {
        seq![]
    } else {
        seq![
            MarkerEntry {
                name: bs[0].name,
                tier: bs[0].tier,
                version: bs[0].version,
                pos: at + gap_text(bs[0]).len(),
            },
        ] + block_entries(bs.drop_first(), at + block_text(bs[0]).len())
    }
}

/// The file with header `h` and blocks `bs`, its index block listing the blocks.
pub open spec fn file_of(h: Seq<u8>, bs: Seq<Block>) -> Seq<u8> {
    let es = block_entries(bs, 0);
    let base = h.len() + index_block(es, 0).len();
    h + index_block(es, base as nat) + blocks_text(bs)
}

/// A name or tier the format can carry: non-empty valid UTF-8 with no `':'`, no `'%'` and no
/// whitespace.
pub open spec fn field_ok(x: Seq<u8>) -> bool {
    &&& x.len() > 0
    &&& valid_utf8(x)
    &&& lacks(x, 58u8)
    &&& lacks(x, 37u8)
    &&& forall|i: int| 0 <= i < x.len() ==> ws_len(x.push(32u8), i) == 0
}

/// `p` occurs nowhere in `b`.
pub open spec fn free_of(b: Seq<u8>, p: Seq<u8>) -> bool {
    forall|i: int| !occurs_at(b, p, i)
}

/// A body the format can carry: valid UTF-8 in which neither `%%@` nor `%%END` occurs.
pub open spec fn body_ok(b: Seq<u8>) -> bool {
    &&& valid_utf8(b)
    &&& free_of(b, mark_tag())
    &&& free_of(b, end_tag())
}

/// `p` holds no line break.
pub open spec fn one_line(p: Seq<u8>) -> bool {
    forall|j: int| 0 <= j < p.len() ==> p[j] != 10u8
}

/// Adding a line break keeps text free of a pattern that holds none.
pub proof fn lemma_stored_free(body: Seq<u8>, p: Seq<u8>)
    requires
        free_of(body, p),
        one_line(p),
        p.len() > 0,
    ensures
        free_of(stored_body(body), p),
        stored_body(body).len() > 0,
        stored_body(body).last() == 10u8,
{
    let sb = stored_body(body);
    assert forall|i: int| !occurs_at(sb, p, i) by {
        if occurs_at(sb, p, i) {
            if i + p.len() <= body.len() {
                assert(body.subrange(i, i + p.len()) =~= sb.subrange(i, i + p.len()));
                assert(occurs_at(body, p, i));
            } else {
                let j = sb.len() - 1 - i;
                assert(sb.subrange(i, i + p.len())[j] == sb[sb.len() - 1]);
            }
        }
    }
}

/// In text that ends with a line break and is free of a one-line pattern, the pattern starts
/// nowhere, whatever follows.
pub proof fn lemma_free_tail(x: Seq<u8>, t: Seq<u8>, p: Seq<u8>)
    requires
        x.len() > 0,
        x.last() == 10u8,
        free_of(x, p),
        one_line(p),
    ensures
        forall|j: int| 0 <= j < x.len() ==> !occurs_at(x + t, p, j),
{
    let c = x + t;
    assert forall|j: int| 0 <= j < x.len() implies !occurs_at(c, p, j) by {
        if occurs_at(c, p, j) {
            if j + p.len() <= x.len() {
                assert(x.subrange(j, j + p.len()) =~= c.subrange(j, j + p.len()));
                assert(occurs_at(x, p, j));
            } else {
                let k = x.len() - 1 - j;
                assert(c.subrange(j, j + p.len())[k] == c[x.len() - 1]);
                assert(c[x.len() - 1] == x[x.len() - 1]);
            }
        }
    }
}

pub open spec fn block_ok(b: Block) -> bool {
    field_ok(b.name) && field_ok(b.tier) && body_ok(b.body)
}

pub open spec fn blocks_ok(bs: Seq<Block>) -> bool {
    forall|i: int| 0 <= i < bs.len() ==> block_ok(#[trigger] bs[i])
}

/// What may stand before the index block: text made of whole lines, in which none of `%%@`,
/// `%%INDEX` and `%%END-INDEX` occurs.
pub open spec fn header_ok(h: Seq<u8>) -> bool {
    &&& h.len() == 0 || h.last() == 10u8
    &&& valid_utf8(h)
    &&& free_of(h, mark_tag())
    &&& free_of(h, index_open_tag())
    &&& free_of(h, index_close_tag())
}

/// What may stand before the index block for the rebuild to find it: whole lines of text in
/// which neither `%%INDEX` nor `%%END-INDEX` occurs (a `%%@` may).
pub open spec fn head_clear(h: Seq<u8>) -> bool {
    &&& h.len() == 0 || h.last() == 10u8
    &&& valid_utf8(h)
    &&& free_of(h, index_open_tag())
    &&& free_of(h, index_close_tag())
}

/// Header lines the index reader passes over: whole lines of text, none of them starting
/// `%%INDEX` or `%%END-INDEX`.
pub open spec fn head_ok(h: Seq<u8>) -> bool {
    &&& h.len() == 0 || h.last() == 10u8
    &&& valid_utf8(h)
    &&& forall|j: int|
        crate::writer::line_start(h, j) ==> !occurs_at(h, index_open_tag(), j) && !occurs_at(
            h,
            index_close_tag(),
            j,
        )
}

/// A name or tier that a marker line carries as one token: non-empty text without whitespace.
pub open spec fn token_ok(x: Seq<u8>) -> bool {
    &&& x.len() > 0
    &&& valid_utf8(x)
    &&& forall|i: int| 0 <= i < x.len() ==> ws_len(x.push(32u8), i) == 0
}

/// A field an index row carries and gives back: text without `':'` or a line break.
pub open spec fn row_field(x: Seq<u8>) -> bool {
    &&& valid_utf8(x)
    &&& lacks(x, 58u8)
    &&& lacks(x, 10u8)
}

/// A name whose index row does not read as the index's opening or closing line.
pub open spec fn row_name(x: Seq<u8>) -> bool {
    &&& row_field(x)
    &&& !starts_with(x, index_open_tag())
    &&& !starts_with(x, index_close_tag())
}

/// Entries whose index rows read back as themselves.
pub open spec fn entries_fit(es: Seq<MarkerEntry>) -> bool {
    forall|i: int|
        0 <= i < es.len() ==> row_name((#[trigger] es[i]).name) && row_field(es[i].tier) && es[i].pos
            >= 0
}

/// No line of `sb` starts with `%%@`.
pub open spec fn no_mark_line(sb: Seq<u8>) -> bool {
    forall|j: int| crate::writer::line_start(sb, j) ==> !occurs_at(sb, mark_tag(), j)
}

/// No line of `sb` starts with `%%END`.
pub open spec fn no_end_line(sb: Seq<u8>) -> bool {
    forall|j: int| crate::writer::line_start(sb, j) ==> !occurs_at(sb, end_tag(), j)
}

/// A header the store writes passes the index reader and the rebuild.
pub proof fn lemma_header_ok_head(h: Seq<u8>)
    requires
        header_ok(h),
    ensures
        head_ok(h),
        head_clear(h),
{
}

/// A header the rebuild finds its way past passes the index reader.
pub proof fn lemma_head_clear_ok(h: Seq<u8>)
    requires
        head_clear(h),
    ensures
        head_ok(h),
{
}

/// A field the format can carry fits an index row.
pub proof fn lemma_field_fits(x: Seq<u8>)
    requires
        field_ok(x),
    ensures
        row_name(x),
        row_field(x),
        token_ok(x),
{
    assert forall|j: int| 0 <= j < x.len() implies x[j] != 10u8 by {
        assert(ws_len(x.push(32u8), j) == 0);
        assert(x.push(32u8)[j] == x[j]);
    }
    if starts_with(x, index_open_tag()) {
        assert(x.subrange(0, 7)[0] == x[0]);
    }
    if starts_with(x, index_close_tag()) {
        assert(x.subrange(0, 11)[0] == x[0]);
    }
}

/// Entries the format can carry fit their index rows.
pub proof fn lemma_entries_fit(es: Seq<MarkerEntry>)
    requires
        entries_ok(es),
    ensures
        entries_fit(es),
{
    assert forall|i: int| 0 <= i < es.len() implies row_name((#[trigger] es[i]).name) && row_field(
        es[i].tier,
    ) && es[i].pos >= 0 by {
        let x = es[i].name;
        assert(field_ok(x) && field_ok(es[i].tier));
        lemma_field_fits(x);
        lemma_field_fits(es[i].tier);
    }
}

/// Nothing in the header starts an occurrence of a one-line pattern it is free of.
pub proof fn lemma_header_free(h: Seq<u8>, t: Seq<u8>, p: Seq<u8>)
    requires
        h.len() == 0 || h.last() == 10u8,
        free_of(h, p),
        one_line(p),
    ensures
        forall|j: int| 0 <= j < h.len() ==> !occurs_at(h + t, p, j),
{
    if h.len() > 0 {
        lemma_free_tail(h, t, p);
    }
}

// ---- marker lines ------------------------------------------------------------------------

pub proof fn lemma_ws_len_field(t: Seq<u8>, off: int, x: Seq<u8>, i: int)
    requires
        0 <= off,
        off + x.len() < t.len(),
        t.subrange(off, off + x.len() + 1) == x.push(32u8),
        0 <= i < x.len(),
    ensures
        ws_len(t, off + i) == ws_len(x.push(32u8), i),
{
    let y = x.push(32u8);
    assert(t[off + i] == y[i]);
    if i + 1 <= x.len() {
        assert(t[off + i + 1] == y[i + 1]);
    }
    if i + 2 <= x.len() {
        assert(t[off + i + 2] == y[i + 2]);
    }
}

proof fn lemma_ws_free_range(t: Seq<u8>, off: int, x: Seq<u8>)
    requires
        0 <= off,
        off + x.len() < t.len(),
        t.subrange(off, off + x.len() + 1) == x.push(32u8),
        token_ok(x),
    ensures
        forall|k: int| off <= k < off + x.len() ==> ws_len(t, k) == 0,
        ws_len(t, off + x.len()) == 1,
{
    assert forall|k: int| off <= k < off + x.len() implies ws_len(t, k) == 0 by {
        lemma_ws_len_field(t, off, x, k - off);
    }
    assert(t[off + x.len()] == x.push(32u8)[x.len() as int]);
}

/// A marker line gives back its name, tier and version.
pub proof fn lemma_marker_fields(name: Seq<u8>, tier: Seq<u8>, version: u32)
    requires
        token_ok(name),
        token_ok(tier),
    ensures
        marker_fields(marker_line(name, tier, version)) == Some((name, tier, version)),
        ({
            let t = marker_line(name, tier, version);
            let n = name.len() as int;
            let m = tier.len() as int;
            &&& forall|k: int| 3 <= k < 3 + n ==> ws_len(t, k) == 0
            &&& ws_len(t, 3 + n) > 0
            &&& next_token(t, 3 + n) == Some((4 + n, 4 + n + m))
            &&& next_token(t, 4 + n + m) == Some((5 + n + m, t.len() as int))
            &&& t.subrange(4 + n, 4 + n + m) == tier
            &&& t.subrange(5 + n + m, t.len() as int) == version_tag() + decimal(version as nat)
            &&& version_of_token(t.subrange(5 + n + m, t.len() as int)) == version
        }),
{
    let t = marker_line(name, tier, version);
    let d = decimal(version as nat);
    let n = name.len() as int;
    let m = tier.len() as int;
    lemma_decimal_digits(version as nat);
    assert(t =~= mark_tag() + (name + seq![32u8]) + (tier + seq![32u8]) + (version_tag() + d));
    assert(t.subrange(0, 3) =~= mark_tag());
    assert(t.subrange(3, 3 + n + 1) =~= name.push(32u8));
    lemma_ws_free_range(t, 3, name);
    lemma_next_token_at(t, 3, 3 + n);
    assert(t.subrange(3, 3 + n) =~= name);
    // the tier
    lemma_skip_ws_one(t, 3 + n);
    assert(t.subrange(4 + n, 4 + n + m + 1) =~= tier.push(32u8));
    lemma_ws_free_range(t, 4 + n, tier);
    lemma_skip_ws_none(t, 4 + n);
    lemma_token_end_at(t, 4 + n, 4 + n + m);
    assert(next_token(t, 3 + n) == Some((4 + n, 4 + n + m)));
    assert(t.subrange(4 + n, 4 + n + m) =~= tier);
    // the version token runs to the end
    let vs = 5 + n + m;
    lemma_skip_ws_one(t, 4 + n + m);
    assert forall|k: int| vs <= k < t.len() implies ws_len(t, k) == 0 by {
        if k == vs {
            assert(t[k] == 118u8);
        } else if k == vs + 1 {
            assert(t[k] == 58u8);
        } else {
            assert(t[k] == d[k - vs - 2]);
            assert(crate::numbers::is_digit(d[k - vs - 2]));
        }
    }
    lemma_skip_ws_none(t, vs);
    lemma_token_end_at(t, vs, t.len() as int);
    assert(next_token(t, 4 + n + m) == Some((vs, t.len() as int)));
    let tok = t.subrange(vs, t.len() as int);
    assert(tok =~= version_tag() + d);
    assert(tok.subrange(0, 2) =~= version_tag());
    assert(tok.subrange(2, tok.len() as int) =~= d);
    lemma_decimal_value(version as nat);
    assert(d[0] != 43u8) by {
        assert(crate::numbers::is_digit(d[0]));
    }
    assert(parse_unsigned(d, u32::MAX as nat) == Some(version as nat));
    assert(version_of_token(tok) == version);
}

// ---- section blocks ----------------------------------------------------------------------

/// A section block is its marker line, a line break, the stored body, and `%%END` with a line
/// break.
pub proof fn lemma_block_shape(name: Seq<u8>, tier: Seq<u8>, version: u32, body: Seq<u8>)
    ensures
        section_block(name, tier, version, body) == marker_line(name, tier, version) + seq![10u8]
            + stored_body(body) + end_tag() + seq![10u8],
{
    assert(section_block(name, tier, version, body) =~= marker_line(name, tier, version) + seq![
        10u8,
    ] + stored_body(body) + end_tag() + seq![10u8]);
}

/// A marker line holds no `'%'` after its `%%@`, and no line break.
pub proof fn lemma_marker_line_bytes(name: Seq<u8>, tier: Seq<u8>, version: u32)
    requires
        field_ok(name),
        field_ok(tier),
    ensures
        lacks_from(marker_line(name, tier, version), 37u8, 3),
        lacks(marker_line(name, tier, version), 10u8),
        marker_line(name, tier, version).len() >= 3,
{
    let t = marker_line(name, tier, version);
    let d = decimal(version as nat);
    lemma_decimal_digits(version as nat);
    let n = name.len() as int;
    let m = tier.len() as int;
    assert forall|j: int| 0 <= j < t.len() implies (j >= 3 ==> t[j] != 37u8) && t[j] != 10u8 by {
        if j < 3 {
        } else if j < 3 + n {
            assert(t[j] == name[j - 3]);
            assert(ws_len(name.push(32u8), j - 3) == 0);
            assert(name.push(32u8)[j - 3] == name[j - 3]);
        } else if j == 3 + n {
        } else if j < 4 + n + m {
            assert(t[j] == tier[j - 4 - n]);
            assert(ws_len(tier.push(32u8), j - 4 - n) == 0);
            assert(tier.push(32u8)[j - 4 - n] == tier[j - 4 - n]);
        } else if j < 7 + n + m {
        } else {
            assert(t[j] == d[j - 7 - n - m]);
            assert(crate::numbers::is_digit(d[j - 7 - n - m]));
        }
    }
}


/// `%%@` occurs in a block (followed by anything) only at its start.
proof fn lemma_block_one_mark(b: Block, rest: Seq<u8>)
    requires
        block_ok(b),
    ensures
        ({
            let blk = section_block(b.name, b.tier, b.version, b.body);
            forall|k: int| 1 <= k < blk.len() ==> !occurs_at(blk + rest, mark_tag(), k)
        }),
{
    let blk = section_block(b.name, b.tier, b.version, b.body);
    let ml = marker_line(b.name, b.tier, b.version);
    let sb = stored_body(b.body);
    lemma_block_shape(b.name, b.tier, b.version, b.body);
    lemma_marker_line_bytes(b.name, b.tier, b.version);
    let c = blk + rest;
    let a = ml.len() + 1;
    lemma_stored_free(b.body, mark_tag());
    assert forall|k: int| 1 <= k < blk.len() implies !occurs_at(c, mark_tag(), k) by {
        if occurs_at(c, mark_tag(), k) {
            assert(c.subrange(k, k + 3) == mark_tag());
            assert(c[k] == 37u8 && c[k + 1] == 37u8 && c[k + 2] == 64u8) by {
                assert(c.subrange(k, k + 3)[0] == c[k]);
                assert(c.subrange(k, k + 3)[1] == c[k + 1]);
                assert(c.subrange(k, k + 3)[2] == c[k + 2]);
            }
            if k < 3 {
                assert(c[k] == ml[k]);
                assert(c[k + 1] == blk[k + 1]);
            } else if k < ml.len() {
                assert(c[k] == ml[k]);
            } else if k == ml.len() {
                assert(c[k] == 10u8);
            } else if k < a + sb.len() {
                let y = sb + (end_tag() + seq![10u8] + rest);
                assert(c =~= (ml + seq![10u8]) + y);
                crate::seq_facts::lemma_occurs_shift(ml + seq![10u8], y, mark_tag(), k - a);
                lemma_free_tail(sb, end_tag() + seq![10u8] + rest, mark_tag());
            } else {
                let i = k - a - sb.len();
                assert(0 <= i < 6);
                if i == 0 {
                    assert(c[k + 2] == 69u8);
                } else if i == 1 {
                    assert(c[k + 1] == 69u8);
                } else if i == 2 {
                    assert(c[k] == 69u8);
                } else if i == 3 {
                    assert(c[k] == 78u8);
                } else if i == 4 {
                    assert(c[k] == 68u8);
                } else {
                    assert(c[k] == 10u8);
                }
            }
        }
    }
}

/// Searching for markers from `i` finds what searching from `j` finds, when no marker starts
/// in between.
pub proof fn lemma_scan_skip(body: Seq<u8>, i: int, j: int)
    requires
        0 <= i <= j,
        forall|k: int| i <= k < j ==> !occurs_at(body, mark_tag(), k),
    ensures
        scan_markers(body, i) == scan_markers(body, j),
{
    crate::bytes::lemma_find_from_skip(body, mark_tag(), i, j);
    crate::bytes::lemma_find_from(body, mark_tag(), j);
}

/// Where one block's marker is found, and its marker line.
pub proof fn lemma_block_marker_found(p: Seq<u8>, b: Block, rest: Seq<u8>)
    requires
        block_ok(b),
    ensures
        ({
            let body = p + block_text(b) + rest;
            let pos = p.len() + gap_text(b).len() as int;
            let ml = marker_line(b.name, b.tier, b.version);
            &&& find_from(body, mark_tag(), p.len() as int) == Some(pos)
            &&& newline_or_end(body, pos) == pos + ml.len()
            &&& body.subrange(pos, pos + ml.len()) == ml
        }),
{
    let body = p + block_text(b) + rest;
    let g = gap_text(b);
    let blk = section_block(b.name, b.tier, b.version, b.body);
    let ml = marker_line(b.name, b.tier, b.version);
    let pos: int = p.len() as int + g.len() as int;
    lemma_block_shape(b.name, b.tier, b.version, b.body);
    lemma_marker_line_bytes(b.name, b.tier, b.version);
    assert(body =~= (p + g) + (blk + rest));
    assert((blk + rest).subrange(0, 3) =~= mark_tag());
    lemma_find_here(blk + rest, mark_tag(), 0);
    assert(lacks_from(p + g, 37u8, p.len() as int));
    lemma_find_skip_prefix(p + g, blk + rest, mark_tag(), p.len() as int);
    let tail = seq![10u8] + (stored_body(b.body) + end_tag() + seq![10u8] + rest);
    assert(body =~= (p + g + ml) + tail);
    assert(lacks_from(p + g + ml, 10u8, pos));
    assert(tail.subrange(0, 1) =~= seq![10u8]);
    lemma_find_here(tail, seq![10u8], 0);
    lemma_find_skip_prefix(p + g + ml, tail, seq![10u8], pos);
    assert(body.subrange(pos, pos + ml.len()) =~= ml);
}

/// After its marker, no other marker starts inside a block.
pub proof fn lemma_block_marker_alone(p: Seq<u8>, b: Block, rest: Seq<u8>)
    requires
        block_ok(b),
    ensures
        ({
            let body = p + block_text(b) + rest;
            let pos = p.len() + gap_text(b).len() as int;
            forall|k: int| pos + 1 <= k < p.len() + block_text(b).len() ==> !occurs_at(
                body,
                mark_tag(),
                k,
            )
        }),
{
    let body = p + block_text(b) + rest;
    let g = gap_text(b);
    let blk = section_block(b.name, b.tier, b.version, b.body);
    let pos: int = p.len() as int + g.len() as int;
    assert(body =~= (p + g) + (blk + rest));
    lemma_block_one_mark(b, rest);
    assert forall|k: int| pos + 1 <= k < p.len() + block_text(b).len() implies !occurs_at(
        body,
        mark_tag(),
        k,
    ) by {
        crate::seq_facts::lemma_occurs_shift(p + g, blk + rest, mark_tag(), k - pos);
    }
}



/// Scanning from the start of a block finds its marker, then goes on after the block.
#[verifier::rlimit(30)]
pub proof fn lemma_scan_one_block(p: Seq<u8>, b: Block, rest: Seq<u8>)
    requires
        block_ok(b),
        p.len() == 0 || p.last() == 10u8,
    ensures
        ({
            let body = p + block_text(b) + rest;
            scan_markers(body, p.len() as int) == seq![
                MarkerEntry {
                    name: b.name,
                    tier: b.tier,
                    version: b.version,
                    pos: p.len() + gap_text(b).len() as int,
                },
            ] + scan_markers(body, p.len() + block_text(b).len() as int)
        }),
{
    let body = p + block_text(b) + rest;
    let pos: int = p.len() as int + gap_text(b).len() as int;
    lemma_block_marker_found(p, b, rest);
    lemma_block_marker_alone(p, b, rest);
    lemma_marker_fields(b.name, b.tier, b.version);
    lemma_block_shape(b.name, b.tier, b.version, b.body);
    assert(crate::writer::line_start(body, pos)) by {
        if pos > 0 {
            if b.gap {
                assert(body[pos - 1] == gap_text(b)[0]);
            } else {
                assert(body[pos - 1] == p.last());
            }
        }
    }
    lemma_scan_skip(body, pos + 3, p.len() + block_text(b).len() as int);
}

/// The markers found after a prefix `p` in the blocks' text are the blocks' own markers.
pub proof fn lemma_scan_blocks(p: Seq<u8>, bs: Seq<Block>)
    requires
        blocks_ok(bs),
        p.len() == 0 || p.last() == 10u8,
    ensures
        scan_markers(p + blocks_text(bs), p.len() as int) == block_entries(bs, p.len() as int),
    decreases bs.len(),
{
    let body = p + blocks_text(bs);
    if bs.len() == 0 {
        assert(body =~= p);
        crate::bytes::lemma_find_from(body, mark_tag(), p.len() as int);
        assert(find_from(body, mark_tag(), p.len() as int) is None);
    } else {
        let b = bs[0];
        assert(block_ok(b));
        let rest = blocks_text(bs.drop_first());
        let p2 = p + block_text(b);
        assert(body =~= p + block_text(b) + rest);
        lemma_scan_one_block(p, b, rest);
        assert(blocks_ok(bs.drop_first())) by {
            assert forall|i: int| 0 <= i < bs.drop_first().len() implies block_ok(
                #[trigger] bs.drop_first()[i],
            ) by {
                assert(bs.drop_first()[i] == bs[i + 1]);
            }
        }
        lemma_block_shape(b.name, b.tier, b.version, b.body);
        assert(p2.last() == 10u8);
        lemma_scan_blocks(p2, bs.drop_first());
        assert(body =~= p2 + rest);
    }
}

// ---- the index block ---------------------------------------------------------------------

/// Entries whose names and tiers the format can carry.
pub open spec fn entries_ok(es: Seq<MarkerEntry>) -> bool {
    forall|i: int|
        0 <= i < es.len() ==> field_ok(#[trigger] es[i].name) && field_ok(es[i].tier) && es[i].pos
            >= 0
}

/// The blocks with the blank line before the first one dropped.
pub open spec fn cleared(bs: Seq<Block>) -> Seq<Block> {
    if bs.len() == 0 {
        bs
    } else {
        bs.update(0, Block { gap: false, ..bs[0] })
    }
}

#[verifier::rlimit(30)]
pub proof fn lemma_block_entries(bs: Seq<Block>, at: int)
    requires
        blocks_ok(bs),
        at >= 0,
    ensures
        entries_ok(block_entries(bs, at)),
        block_entries(bs, at).len() == bs.len(),
        forall|i: int|
            0 <= i < bs.len() ==> (#[trigger] block_entries(bs, at)[i]).name == bs[i].name
                && block_entries(bs, at)[i].tier == bs[i].tier && block_entries(bs, at)[i].version
                == bs[i].version,
    decreases bs.len(),
{
    if bs.len() > 0 {
        assert(blocks_ok(bs.drop_first())) by {
            assert forall|i: int| 0 <= i < bs.drop_first().len() implies block_ok(
                #[trigger] bs.drop_first()[i],
            ) by {
                assert(bs.drop_first()[i] == bs[i + 1]);
            }
        }
        assert(block_ok(bs[0]));
        lemma_block_entries(bs.drop_first(), at + block_text(bs[0]).len());
        let es = block_entries(bs, at);
        let tail = block_entries(bs.drop_first(), at + block_text(bs[0]).len());
        assert forall|i: int| 0 <= i < es.len() implies field_ok(#[trigger] es[i].name) && field_ok(
            es[i].tier,
        ) && es[i].pos >= 0 by {
            if i > 0 {
                assert(es[i] == tail[i - 1]);
            }
        }
        assert forall|i: int| 0 <= i < bs.len() implies (#[trigger] es[i]).name == bs[i].name
            && es[i].tier == bs[i].tier && es[i].version == bs[i].version by {
            if i > 0 {
                assert(es[i] == tail[i - 1]);
                assert(bs.drop_first()[i - 1] == bs[i]);
            }
        }
    }
}

/// The bytes of `decimal(n)` and its padded form are digits.
proof fn lemma_digits_bytes(n: nat, w: nat)
    ensures
        forall|i: int|
            0 <= i < zero_pad_len(n, w) ==> crate::numbers::is_digit(
                #[trigger] crate::numbers::zero_pad(decimal(n), w)[i],
            ),
        zero_pad_len(n, w) == crate::numbers::zero_pad(decimal(n), w).len(),
{
    lemma_decimal_digits(n);
    crate::numbers::lemma_zero_pad_value(decimal(n), w);
}

pub open spec fn zero_pad_len(n: nat, w: nat) -> int {
    crate::numbers::zero_pad(decimal(n), w).len() as int
}

/// An index row holds no `'%'`, is valid UTF-8, and ends with its only line break.
#[verifier::rlimit(30)]
pub proof fn lemma_row_bytes(e: MarkerEntry, base: nat)
    requires
        field_ok(e.name),
        field_ok(e.tier),
        base + e.pos >= 0,
    ensures
        lacks(index_row(e, base), 37u8),
        valid_utf8(index_row(e, base)),
        index_row(e, base).len() > 0,
        index_row(e, base).last() == 10u8,
        lacks(index_row(e, base).drop_last(), 10u8),
{
    let r = index_row(e, base);
    let d = decimal(e.version as nat);
    let z = crate::numbers::zero_pad(decimal((base + e.pos) as nat), 10);
    lemma_decimal_digits(e.version as nat);
    lemma_digits_bytes((base + e.pos) as nat, 10);
    let n = e.name.len() as int;
    let m = e.tier.len() as int;
    let tail = seq![58u8, 118u8] + d + seq![58u8] + z + seq![10u8];
    assert(r =~= e.name + seq![58u8] + e.tier + tail);
    assert forall|j: int| 0 <= j < tail.len() implies tail[j] < 128 && tail[j] != 37u8 && (j
        < tail.len() - 1 ==> tail[j] != 10u8) by {
        if j < 2 {
        } else if j < 2 + d.len() {
            assert(tail[j] == d[j - 2]);
            assert(crate::numbers::is_digit(d[j - 2]));
        } else if j == 2 + d.len() {
        } else if j < 3 + d.len() + z.len() {
            assert(tail[j] == z[j - 3 - d.len()]);
            assert(crate::numbers::is_digit(z[j - 3 - d.len()]));
        } else {
        }
    }
    crate::date::lemma_ascii_valid(tail);
    crate::date::lemma_ascii_valid(seq![58u8]);
    vstd::utf8::valid_utf8_concat(e.name, seq![58u8]);
    vstd::utf8::valid_utf8_concat(e.name + seq![58u8], e.tier);
    vstd::utf8::valid_utf8_concat(e.name + seq![58u8] + e.tier, tail);
    assert forall|j: int| 0 <= j < r.len() implies r[j] != 37u8 && (j < r.len() - 1 ==> r[j]
        != 10u8) by {
        if j < n {
            assert(r[j] == e.name[j]);
            assert(ws_len(e.name.push(32u8), j) == 0);
            assert(e.name.push(32u8)[j] == e.name[j]);
        } else if j == n {
        } else if j < n + 1 + m {
            assert(r[j] == e.tier[j - n - 1]);
            assert(ws_len(e.tier.push(32u8), j - n - 1) == 0);
            assert(e.tier.push(32u8)[j - n - 1] == e.tier[j - n - 1]);
        } else {
            assert(r[j] == tail[j - n - 1 - m]);
        }
    }
}


/// Entries whose names and tiers hold no `'%'`, so that their index rows hold none.
pub open spec fn entries_plain(es: Seq<MarkerEntry>) -> bool {
    forall|i: int| 0 <= i < es.len() ==> lacks((#[trigger] es[i]).name, 37u8) && lacks(es[i].tier, 37u8)
}

/// Entries the format can carry hold no `'%'`, and their offsets are not negative.
pub proof fn lemma_entries_plain(es: Seq<MarkerEntry>, base: nat)
    requires
        entries_ok(es),
    ensures
        entries_plain(es),
        forall|i: int| 0 <= i < es.len() ==> base + (#[trigger] es[i]).pos >= 0,
{
    assert forall|i: int| 0 <= i < es.len() implies lacks((#[trigger] es[i]).name, 37u8) && lacks(
        es[i].tier,
        37u8,
    ) by {
        let x = es[i].name;
        assert(field_ok(x) && field_ok(es[i].tier));
        assert(lacks(x, 37u8));
        assert(lacks(es[i].tier, 37u8));
    }
    assert(entries_plain(es));
    assert forall|i: int| 0 <= i < es.len() implies base + (#[trigger] es[i]).pos >= 0 by {
        let x = es[i].name;
        assert(field_ok(x));
    }
}

/// An index row of a name and a tier without `'%'` holds none.
#[verifier::rlimit(30)]
proof fn lemma_row_plain(e: MarkerEntry, base: nat)
    requires
        lacks(e.name, 37u8),
        lacks(e.tier, 37u8),
        base + e.pos >= 0,
    ensures
        lacks(index_row(e, base), 37u8),
{
    let r = index_row(e, base);
    let d = decimal(e.version as nat);
    let z = crate::numbers::zero_pad(decimal((base + e.pos) as nat), 10);
    lemma_decimal_digits(e.version as nat);
    lemma_digits_bytes((base + e.pos) as nat, 10);
    let n = e.name.len() as int;
    let m = e.tier.len() as int;
    let tail = seq![58u8, 118u8] + d + seq![58u8] + z + seq![10u8];
    assert(r =~= e.name + seq![58u8] + e.tier + tail);
    assert forall|j: int| 0 <= j < tail.len() implies tail[j] != 37u8 by {
        if j < 2 {
        } else if j < 2 + d.len() {
            assert(tail[j] == d[j - 2]);
            assert(crate::numbers::is_digit(d[j - 2]));
        } else if j == 2 + d.len() {
        } else if j < 3 + d.len() + z.len() {
            assert(tail[j] == z[j - 3 - d.len()]);
            assert(crate::numbers::is_digit(z[j - 3 - d.len()]));
        } else {
        }
    }
    assert forall|j: int| 0 <= j < r.len() implies r[j] != 37u8 by {
        if j < n {
            assert(r[j] == e.name[j]);
        } else if j == n {
        } else if j < n + 1 + m {
            assert(r[j] == e.tier[j - n - 1]);
        } else {
            assert(r[j] == tail[j - n - 1 - m]);
        }
    }
}

/// The index rows of entries without `'%'` hold none.
proof fn lemma_rows_plain(es: Seq<MarkerEntry>, base: nat)
    requires
        entries_plain(es),
        forall|i: int| 0 <= i < es.len() ==> base + (#[trigger] es[i]).pos >= 0,
    ensures
        lacks(index_rows(es, base), 37u8),
    decreases es.len(),
{
    if es.len() > 0 {
        assert(es.last() == es[es.len() - 1]);
        assert forall|i: int| 0 <= i < es.drop_last().len() implies base + (#[trigger] es.drop_last()[i]).pos
            >= 0 && lacks(es.drop_last()[i].name, 37u8) && lacks(es.drop_last()[i].tier, 37u8) by {
            assert(es.drop_last()[i] == es[i]);
        }
        lemma_rows_plain(es.drop_last(), base);
        assert(lacks(es[es.len() - 1].name, 37u8) && lacks(es[es.len() - 1].tier, 37u8));
        assert(base + es[es.len() - 1].pos >= 0);
        lemma_row_plain(es.last(), base);
        let a = index_rows(es.drop_last(), base);
        let b = index_row(es.last(), base);
        assert forall|j: int| 0 <= j < (a + b).len() implies (a + b)[j] != 37u8 by {
            if j < a.len() {
                assert((a + b)[j] == a[j]);
            } else {
                assert((a + b)[j] == b[j - a.len()]);
            }
        }
    }
}

/// The index rows hold no `'%'` and are valid UTF-8.
proof fn lemma_rows_bytes(es: Seq<MarkerEntry>, base: nat)
    requires
        entries_ok(es),
    ensures
        lacks(index_rows(es, base), 37u8),
        valid_utf8(index_rows(es, base)),
    decreases es.len(),
{
    if es.len() == 0 {
        assert(valid_utf8(Seq::<u8>::empty()));
    } else {
        assert(entries_ok(es.drop_last())) by {
            assert forall|i: int| 0 <= i < es.drop_last().len() implies field_ok(
                #[trigger] es.drop_last()[i].name,
            ) && field_ok(es.drop_last()[i].tier) && es.drop_last()[i].pos >= 0 by {
                assert(es.drop_last()[i] == es[i]);
            }
        }
        lemma_rows_bytes(es.drop_last(), base);
        assert(es.last() == es[es.len() - 1]);
        assert(field_ok(es[es.len() - 1].name) && field_ok(es[es.len() - 1].tier));
        lemma_row_bytes(es.last(), base);
        let a = index_rows(es.drop_last(), base);
        let b = index_row(es.last(), base);
        vstd::utf8::valid_utf8_concat(a, b);
        assert forall|j: int| 0 <= j < (a + b).len() implies (a + b)[j] != 37u8 by {
            if j < a.len() {
                assert((a + b)[j] == a[j]);
            } else {
                assert((a + b)[j] == b[j - a.len()]);
            }
        }
    }
}

pub proof fn lemma_blocks_start(bs: Seq<Block>)
    requires
        blocks_ok(bs),
        bs.len() > 0,
    ensures
        blocks_text(bs).len() > 0,
        bs[0].gap ==> blocks_text(bs)[0] == 10u8 && blocks_text(bs).len() > 1 && blocks_text(bs)[1]
            == 37u8,
        !bs[0].gap ==> blocks_text(bs)[0] == 37u8,
        blocks_text(bs).subrange(gap_text(bs[0]).len() as int, blocks_text(bs).len() as int)
            == blocks_text(cleared(bs)),
{
    let b = bs[0];
    let blk = section_block(b.name, b.tier, b.version, b.body);
    let rest = blocks_text(bs.drop_first());
    assert(blocks_text(bs) == gap_text(b) + blk + rest);
    assert(blk[0] == 37u8);
    let c = cleared(bs);
    assert(c.drop_first() =~= bs.drop_first());
    assert(blocks_text(c) == block_text(c[0]) + blocks_text(c.drop_first()));
    assert(block_text(c[0]) =~= blk);
    assert(blocks_text(bs).subrange(gap_text(bs[0]).len() as int, blocks_text(bs).len() as int)
        =~= blk + rest);
}

pub proof fn lemma_find_open(h: Seq<u8>, ib: Seq<u8>, bt: Seq<u8>, es: Seq<MarkerEntry>, base: nat)
    requires
        header_ok(h),
        ib == index_block(es, base),
    ensures
        find_from(h + ib + bt, index_open_tag(), 0) == Some(h.len() as int),
{
    let c = h + ib + bt;
    assert(c =~= h + (ib + bt));
    lemma_header_free(h, ib + bt, index_open_tag());
    assert(c.subrange(h.len() as int, h.len() + 7int) =~= index_open_tag());
    crate::bytes::lemma_find_from_skip(c, index_open_tag(), 0, h.len() as int);
    lemma_find_here(c, index_open_tag(), h.len() as int);
}

#[verifier::rlimit(30)]
pub proof fn lemma_find_close(h: Seq<u8>, ib: Seq<u8>, bt: Seq<u8>, es: Seq<MarkerEntry>, base: nat)
    requires
        header_ok(h),
        entries_plain(es),
        forall|i: int| 0 <= i < es.len() ==> base + (#[trigger] es[i]).pos >= 0,
        ib == index_block(es, base),
    ensures
        find_from(h + ib + bt, index_close_tag(), 0) == Some(h.len() + ib.len() - 12),
        (h + ib + bt)[h.len() + ib.len() - 1] == 10u8,
        ib.len() >= 20,
{
    let rows = index_rows(es, base);
    let c = h + ib + bt;
    lemma_rows_plain(es, base);
    let a = h + index_open_tag() + seq![10u8] + rows;
    let b = index_close_tag() + seq![10u8] + bt;
    assert(c =~= a + b);
    let hl = h.len() as int;
    assert(lacks_from(a, 37u8, hl + 2)) by {
        assert forall|j: int| hl + 2 <= j < a.len() implies a[j] != 37u8 by {
            if j < hl + 8 {
            } else {
                assert(a[j] == rows[j - hl - 8]);
            }
        }
    }
    assert(b.subrange(0, 11) =~= index_close_tag());
    lemma_find_here(b, index_close_tag(), 0);
    lemma_find_skip_prefix(a, b, index_close_tag(), hl + 2);
    assert(c =~= h + (ib + bt));
    lemma_header_free(h, ib + bt, index_close_tag());
    assert forall|j: int| 0 <= j < hl + 2 implies !occurs_at(c, index_close_tag(), j) by {
        if occurs_at(c, index_close_tag(), j) {
            assert(c.subrange(j, j + 11)[0] == c[j]);
            assert(c.subrange(j, j + 11)[1] == c[j + 1]);
            if j < hl {
            } else if j == hl {
                assert(c[j + 2] == 73u8);
                assert(c.subrange(j, j + 11)[2] == c[j + 2]);
            } else {
                assert(c[j + 1] == 73u8);
            }
        }
    }
    crate::bytes::lemma_find_from_skip(c, index_close_tag(), 0, hl + 2);
    assert(ib.len() == 8 + rows.len() + 12);
}

pub proof fn lemma_skip_gap(h: Seq<u8>, ib: Seq<u8>, bs: Seq<Block>)
    requires
        blocks_ok(bs),
        ib.len() >= 1,
        ib.last() == 10u8,
    ensures
        ({
            let c = h + ib + blocks_text(bs);
            c.subrange(skip_newlines(c, h.len() + ib.len() - 1), c.len() as int) == blocks_text(
                cleared(bs),
            )
        }),
{
    let bt = blocks_text(bs);
    let c = h + ib + bt;
    let after: int = h.len() + ib.len() as int;
    assert(c[after - 1] == 10u8);
    assert(skip_newlines(c, after - 1) == skip_newlines(c, after));
    assert(c.subrange(after, c.len() as int) =~= bt);
    if bs.len() == 0 {
        assert(bt.len() == 0);
        assert(skip_newlines(c, after) == after);
        assert(blocks_text(cleared(bs)) =~= bt);
    } else {
        lemma_blocks_start(bs);
        if bs[0].gap {
            assert(c[after] == 10u8);
            assert(c[after + 1] == 37u8);
            assert(skip_newlines(c, after + 1) == after + 1);
            assert(c.subrange(after + 1, c.len() as int) =~= bt.subrange(1, bt.len() as int));
        } else {
            assert(c[after] == 37u8);
            assert(skip_newlines(c, after) == after);
            assert(bt.subrange(0, bt.len() as int) =~= bt);
        }
    }
}


/// The header and body of a file made of a header, an index block and blocks.
pub proof fn lemma_header_and_body(h: Seq<u8>, es: Seq<MarkerEntry>, base: nat, bs: Seq<Block>)
    requires
        header_ok(h),
        entries_ok(es),
        blocks_ok(bs),
    ensures
        header_and_body(h + index_block(es, base) + blocks_text(bs)) == (h, blocks_text(
            cleared(bs),
        )),
{
    let ib = index_block(es, base);
    let bt = blocks_text(bs);
    let c = h + ib + bt;
    lemma_find_open(h, ib, bt, es, base);
    lemma_entries_plain(es, base);
    lemma_find_close(h, ib, bt, es, base);
    assert(ib.last() == 10u8);
    lemma_skip_gap(h, ib, bs);
    assert(c.subrange(0, h.len() as int) =~= h);
}

/// Rebuilding the index of a file made of a header, any index block and blocks gives the
/// file whose index lists those blocks (with the blank line before the first one dropped).
pub proof fn lemma_rebuilt_blocks(h: Seq<u8>, es: Seq<MarkerEntry>, base: nat, bs: Seq<Block>)
    requires
        header_ok(h),
        entries_ok(es),
        blocks_ok(bs),
    ensures
        rebuilt(h + index_block(es, base) + blocks_text(bs)) == file_of(h, cleared(bs)),
{
    lemma_header_and_body(h, es, base, bs);
    let cb = cleared(bs);
    assert(blocks_ok(cb)) by {
        assert forall|i: int| 0 <= i < cb.len() implies block_ok(#[trigger] cb[i]) by {
            assert(block_ok(bs[i]));
        }
    }
    lemma_scan_blocks(Seq::<u8>::empty(), cb);
    assert(Seq::<u8>::empty() + blocks_text(cb) =~= blocks_text(cb));
}

/// No `%%@` starts in the header or the index block of a file the store wrote.
#[verifier::rlimit(30)]
pub proof fn lemma_no_mark_in_head(h: Seq<u8>, es: Seq<MarkerEntry>, base: nat, bt: Seq<u8>)
    requires
        header_ok(h),
        entries_ok(es),
    ensures
        forall|j: int|
            0 <= j < h.len() + index_block(es, base).len() ==> !occurs_at(
                h + index_block(es, base) + bt,
                mark_tag(),
                j,
            ),
{
    let rows = index_rows(es, base);
    let ib = index_block(es, base);
    let c = h + ib + bt;
    let hl = h.len() as int;
    let rl = rows.len() as int;
    lemma_rows_bytes(es, base);
    assert(c =~= h + index_open_tag() + seq![10u8] + rows + (index_close_tag() + seq![10u8] + bt));
    assert(ib.len() == 8 + rl + 12);
    assert(c =~= h + (ib + bt));
    lemma_header_free(h, ib + bt, mark_tag());
    assert forall|j: int| 0 <= j < hl + ib.len() implies !occurs_at(c, mark_tag(), j) by {
        if occurs_at(c, mark_tag(), j) {
            assert(c.subrange(j, j + 3)[0] == c[j]);
            assert(c.subrange(j, j + 3)[1] == c[j + 1]);
            assert(c.subrange(j, j + 3)[2] == c[j + 2]);
            if j < hl {
            } else if j < hl + 8 {
                if j == hl {
                    assert(c[j + 2] == 73u8);
                } else if j == hl + 1 {
                    assert(c[j + 1] == 73u8);
                } else {
                    assert(c[j] != 37u8);
                }
            } else if j < hl + 8 + rl {
                assert(c[j] == rows[j - hl - 8]);
            } else if j == hl + 8 + rl {
                assert(c[j + 2] == 69u8);
            } else if j == hl + 9 + rl {
                assert(c[j + 1] == 69u8);
            } else {
                assert(c[j] != 37u8);
            }
        }
    }
}

} // verus!
