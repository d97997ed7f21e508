//! What a read gives back of a write, on any file: after writing a section, the index finds the
//! section's row, and reading at its offset gives the body written.
use vstd::prelude::*;
use vstd::utf8::valid_utf8;
use crate::block_facts::{crlf_free, lemma_read_section};
use crate::bytes::{find_from, lemma_find_from, newline_or_end, occurs_at, skip_newlines, starts_with};
use crate::canonical::{
    entries_fit, head_ok, lemma_block_shape, lemma_marker_fields, marker_line, no_end_line,
    row_name, stored_body, token_ok,
};
use crate::file_facts::offset_limit;
use crate::index_facts::{entry_view, entry_views};
use crate::layout::{
    index_close_tag, index_of, index_open_tag, mark_tag, read_at, ReadOutcome,
};
use crate::rebuild_laws::{indexed, lemma_rebuilt_index, lemma_scan_shape};
use crate::scan_facts::{lemma_scan_concat, shifted};
use crate::store::{after_write, first_named, is_tier, lemma_named_from};
use crate::store_laws::lemma_tier_field_ok;
use crate::write_laws::replaced_version;
use crate::writer::{
    header_and_body, lemma_marker_from, marker_pos, scan_markers, section_block, write_defined,
    written, MarkerEntry,
};

verus! {

/// Where the body starts when the rebuild splits `c` into header and body.
pub open spec fn body_start(c: Seq<u8>) -> int {
    match (find_from(c, index_open_tag(), 0), find_from(c, index_close_tag(), 0)) {
        (Some(s), Some(e)) => skip_newlines(c, e + 11),
        _ => match find_from(c, seq![10u8], 0) {
            Some(i) => i + 1,
            None => c.len() as int,
        },
    }
}

/// Where the written block starts in the file before the rebuild: at the marker line it
/// replaces, or after the line break put before an appended block.
pub open spec fn written_at(c: Seq<u8>, name: Seq<u8>) -> int {
    match marker_pos(c, name) {
        Some(s) => s,
        None => c.len() + 1int,
    }
}

/// The version a write of section `name` gives it: one more than the section it replaces, or 1.
pub open spec fn new_version(c: Seq<u8>, name: Seq<u8>) -> u32 {
    match marker_pos(c, name) {
        Some(s) => replaced_version(c, s),
        None => 1u32,
    }
}

/// What the rebuild after a write needs to list the written section at its place: the block
/// lands in the body, not in the header; the header passes the index reader; every marker of
/// the body fits an index row; and no marker line of the body before the block carries its name.
pub open spec fn write_lands(c: Seq<u8>, name: Seq<u8>, tier: Seq<u8>, body: Seq<u8>) -> bool {
    let w = written(c, name, tier, body);
    let ms = scan_markers(header_and_body(w).1, 0);
    let q = written_at(c, name) - body_start(w);
    &&& body_start(w) <= written_at(c, name)
    &&& head_ok(header_and_body(w).0)
    &&& entries_fit(ms)
    &&& forall|i: int| 0 <= i < ms.len() && (#[trigger] ms[i]).pos < q ==> ms[i].name != name
}

/// The body the rebuild splits off is what follows `body_start`.
proof fn lemma_body_start(c: Seq<u8>)
    ensures
        0 <= body_start(c) <= c.len(),
        header_and_body(c).1 == c.subrange(body_start(c), c.len() as int),
{
    lemma_find_from(c, index_close_tag(), 0);
    lemma_find_from(c, seq![10u8], 0);
    if let Some(e) = find_from(c, index_close_tag(), 0) {
        crate::bytes::lemma_skip_newlines(c, e + 11);
    }
}

/// The written block stands whole in the file before the rebuild, at the start of a line.
proof fn lemma_written_block(c: Seq<u8>, name: Seq<u8>, tier: Seq<u8>, body: Seq<u8>)
    requires
        write_defined(c, name),
    ensures
        ({
            let w = written(c, name, tier, body);
            let a = written_at(c, name);
            let blk = section_block(name, tier, new_version(c, name), body);
            &&& 0 < a || (a == 0 && marker_pos(c, name) is Some)
            &&& a + blk.len() <= w.len()
            &&& w.subrange(a, a + blk.len()) == blk
            &&& a == 0 || w[a - 1] == 10u8
        }),
{
    let w = written(c, name, tier, body);
    let blk = section_block(name, tier, new_version(c, name), body);
    lemma_marker_from(c, name, 0);
    match marker_pos(c, name) {
        Some(s) => {
            lemma_find_from(c, crate::layout::end_tag(), s);
            let k = find_from(c, crate::layout::end_tag(), s)->0;
            crate::bytes::lemma_skip_newlines(c, k + 5);
            let e = crate::writer::section_end(c, s);
            assert(w =~= c.subrange(0, s) + blk + c.subrange(e, c.len() as int));
            assert(w.subrange(s, s + blk.len()) =~= blk);
            if s > 0 {
                assert(w[s - 1] == c[s - 1]);
            }
        },
        None => {
            assert(w =~= c + seq![10u8] + blk);
            assert(w.subrange(c.len() + 1int, c.len() + 1int + blk.len()) =~= blk);
            assert(w[c.len() as int] == 10u8);
        },
    }
}

/// A block followed by anything starts with its marker line.
#[verifier::rlimit(40)]
proof fn lemma_block_first_line(
    name: Seq<u8>,
    tier: Seq<u8>,
    version: u32,
    body: Seq<u8>,
    r: Seq<u8>,
)
    requires
        token_ok(name),
        token_ok(tier),
    ensures
        ({
            let br = section_block(name, tier, version, body) + r;
            let ml = marker_line(name, tier, version);
            &&& find_from(br, mark_tag(), 0) == Some(0int)
            &&& newline_or_end(br, 0) == ml.len()
            &&& br.subrange(0, ml.len() as int) == ml
        }),
{
    let blk = section_block(name, tier, version, body);
    let br = blk + r;
    let ml = marker_line(name, tier, version);
    lemma_block_shape(name, tier, version, body);
    crate::block_facts::lemma_marker_line_text(name, tier, version);
    assert(br =~= ml + (seq![10u8] + (stored_body(body) + crate::layout::end_tag() + seq![10u8]
        + r)));
    assert(br.subrange(0, 3) =~= mark_tag()) by {
        assert forall|j: int| 0 <= j < 3 implies br[j] == mark_tag()[j] by {
            assert(br[j] == ml.push(10u8)[j]);
            assert(ml.push(10u8).subrange(0, 3)[j] == ml.push(10u8)[j]);
        }
    }
    crate::seq_facts::lemma_find_here(br, mark_tag(), 0);
    let nl = seq![10u8];
    assert forall|j: int| 0 <= j < ml.len() implies !occurs_at(br, nl, j) by {
        assert(br[j] == ml[j]);
        if occurs_at(br, nl, j) {
            assert(br.subrange(j, j + 1)[0] == br[j]);
        }
    }
    assert(br[ml.len() as int] == 10u8);
    assert(br.subrange(ml.len() as int, ml.len() + 1int) =~= nl);
    crate::bytes::lemma_find_from_skip(br, nl, 0, ml.len() as int);
    crate::seq_facts::lemma_find_here(br, nl, ml.len() as int);
    assert(br.subrange(0, ml.len() as int) =~= ml);
}

/// The markers of a block followed by anything start with the block's own.
pub proof fn lemma_block_scan(name: Seq<u8>, tier: Seq<u8>, version: u32, body: Seq<u8>, r: Seq<u8>)
    requires
        token_ok(name),
        token_ok(tier),
    ensures
        ({
            let br = section_block(name, tier, version, body) + r;
            scan_markers(br, 0) == seq![
                MarkerEntry { name: name, tier: tier, version: version, pos: 0 },
            ] + scan_markers(br, 3)
        }),
{
    let br = section_block(name, tier, version, body) + r;
    lemma_block_first_line(name, tier, version, body, r);
    lemma_marker_fields(name, tier, version);
    lemma_block_shape(name, tier, version, body);
    assert(3 <= br.len());
    assert(crate::writer::line_start(br, 0));
}

/// The markers the rebuild finds start with the written block's own at its place.
proof fn lemma_block_marker_first(
    x: Seq<u8>,
    r: Seq<u8>,
    name: Seq<u8>,
    tier: Seq<u8>,
    version: u32,
    body: Seq<u8>,
)
    requires
        x.len() == 0 || x.last() == 10u8,
        token_ok(name),
        token_ok(tier),
    ensures
        ({
            let blk = section_block(name, tier, version, body);
            let ms = scan_markers(x + blk + r, 0);
            let k = scan_markers(x, 0).len() as int;
            &&& k < ms.len()
            &&& ms[k] == MarkerEntry {
                name: name,
                tier: tier,
                version: version,
                pos: x.len() as int,
            }
            &&& forall|i: int| 0 <= i < k ==> ms[i] == scan_markers(x, 0)[i]
        }),
{
    let blk = section_block(name, tier, version, body);
    let br = blk + r;
    lemma_block_scan(name, tier, version, body, r);
    let e = MarkerEntry { name: name, tier: tier, version: version, pos: 0 };
    assert(x + blk + r =~= x + br);
    lemma_scan_concat(x, br);
    let sx = scan_markers(x, 0);
    let ms = scan_markers(x + blk + r, 0);
    let tail = shifted(seq![e] + scan_markers(br, 3), x.len() as int);
    assert(ms == sx + tail);
    assert(tail[0] == MarkerEntry { name: name, tier: tier, version: version, pos: x.len() as int });
    assert(ms[sx.len() as int] == tail[0]);
}

/// Reading back a block that a file whose index a rebuild wrote holds after whole lines: the
/// index finds the block's row first when no earlier marker carries its name, and reading at
/// its offset gives the stored body.
#[verifier::rlimit(60)]
proof fn lemma_readback_indexed(
    h: Seq<u8>,
    x: Seq<u8>,
    r: Seq<u8>,
    name: Seq<u8>,
    tier: Seq<u8>,
    version: u32,
    body: Seq<u8>,
)
    requires
        head_ok(h),
        x.len() == 0 || x.last() == 10u8,
        token_ok(name),
        token_ok(tier),
        valid_utf8(body),
        no_end_line(stored_body(body)),
        crlf_free(stored_body(body)),
        entries_fit(scan_markers(x + section_block(name, tier, version, body) + r, 0)),
        forall|i: int|
            0 <= i < scan_markers(x + section_block(name, tier, version, body) + r, 0).len() && (
            #[trigger] scan_markers(x + section_block(name, tier, version, body) + r, 0)[i]).pos
                < x.len() ==> scan_markers(x + section_block(name, tier, version, body) + r, 0)[i].name
                != name,
        indexed(h, x + section_block(name, tier, version, body) + r).len() < offset_limit(),
    ensures
        ({
            let new = indexed(h, x + section_block(name, tier, version, body) + r);
            let idx = index_of(new).0;
            &&& index_of(new).1
            &&& first_named(idx, name) matches Some(k) && {
                &&& idx[k].tier == tier
                &&& idx[k].version == version
                &&& read_at(new, idx[k].offset as nat, name) == ReadOutcome::Body(
                    stored_body(body),
                )
            }
        }),
{
    let blk = section_block(name, tier, version, body);
    let b = x + blk + r;
    lemma_block_marker_first(x, r, name, tier, version, body);
    let ms = scan_markers(b, 0);
    let sx = scan_markers(x, 0);
    let k = sx.len() as int;
    lemma_scan_shape(x, 0);
    let new = indexed(h, b);
    lemma_rebuilt_index(h, b);
    let base = crate::rebuild_laws::rebuilt_base(h, ms);
    let idx = index_of(new).0;
    assert(idx == entry_views(ms, base));
    assert(idx[k] == entry_view(ms[k], base));
    assert forall|i: int| 0 <= i < k implies idx[i].name != name by {
        assert(idx[i] == entry_view(ms[i], base));
        assert(ms[i] == sx[i]);
        assert(ms[i].pos < x.len());
    }
    lemma_named_from(idx, name, 0);
    assert(first_named(idx, name) == Some(k)) by {
        if let Some(k2) = first_named(idx, name) {
            if k2 > k {
                assert(idx[k].name == name);
            }
        } else {
            assert(idx[k].name == name);
        }
    }
    let pre = h + crate::writer::index_block(ms, base);
    let p = pre.len() as int;
    assert(p == base);
    assert(new =~= pre + x + blk + r);
    assert(idx[k].offset as int == p + x.len());
    assert(new.subrange(p + x.len(), p + x.len() + blk.len()) =~= blk);
    lemma_read_section(new, p + x.len(), name, tier, version, body);
}

/// A write puts its block into the body the rebuild splits off, after whole lines.
#[verifier::rlimit(60)]
proof fn lemma_readback_split(c: Seq<u8>, name: Seq<u8>, tier: Seq<u8>, body: Seq<u8>)
    requires
        write_defined(c, name),
        write_lands(c, name, tier, body),
    ensures
        ({
            let w = written(c, name, tier, body);
            let h = header_and_body(w).0;
            let b = header_and_body(w).1;
            let q = written_at(c, name) - body_start(w);
            let blk = section_block(name, tier, new_version(c, name), body);
            let x = b.subrange(0, q);
            let r = b.subrange(q + blk.len(), b.len() as int);
            &&& 0 <= q
            &&& q + blk.len() <= b.len()
            &&& b == x + blk + r
            &&& x.len() == 0 || x.last() == 10u8
            &&& after_write(c, name, tier, body) == indexed(h, b)
        }),
{
    let w = written(c, name, tier, body);
    let b = header_and_body(w).1;
    let d = body_start(w);
    let a = written_at(c, name);
    let blk = section_block(name, tier, new_version(c, name), body);
    lemma_body_start(w);
    lemma_written_block(c, name, tier, body);
    let q = a - d;
    let x = b.subrange(0, q);
    let r = b.subrange(q + blk.len(), b.len() as int);
    assert(b.subrange(q, q + blk.len()) =~= blk) by {
        assert forall|j: int| 0 <= j < blk.len() implies b.subrange(q, q + blk.len())[j]
            == blk[j] by {
            assert(b[q + j] == w[a + j]);
            assert(w.subrange(a, a + blk.len())[j] == w[a + j]);
        }
    }
    assert(b =~= x + blk + r);
    if q > 0 {
        assert(x.last() == w[a - 1]);
    }
}

/// What a write stores is what a read gives back, on any file on which the write is defined:
/// after writing `body` to section `name` with one of the three tiers, the index finds `name`
/// at a row with that tier and the new version (one more than the section replaced, or 1), and
/// reading at that row's offset gives `body` (with a final line break added if missing). Left
/// out are the inputs on which this fails: a name that is not one token, or whose index row
/// would not read back (a `':'`, or a start like the index's own tag lines); a body with a line
/// starting `%%END` or a `"\r\n"`; a written block that lands in the header, or after an earlier
/// marker line that carries the same name; a header the index reader does not pass; another
/// marker whose row would not read back; and files past ten-digit offsets.
pub proof fn law_read_after_write_any(c: Seq<u8>, name: Seq<u8>, tier: Seq<u8>, body: Seq<u8>)
    requires
        is_tier(tier),
        write_defined(c, name),
        token_ok(name),
        row_name(name),
        valid_utf8(body),
        no_end_line(stored_body(body)),
        crlf_free(stored_body(body)),
        write_lands(c, name, tier, body),
        after_write(c, name, tier, body).len() < offset_limit(),
    ensures
        ({
            let new = after_write(c, name, tier, body);
            let idx = index_of(new).0;
            &&& index_of(new).1
            &&& first_named(idx, name) matches Some(k) && {
                &&& idx[k].tier == tier
                &&& idx[k].version == new_version(c, name)
                &&& read_at(new, idx[k].offset as nat, name) == ReadOutcome::Body(
                    stored_body(body),
                )
            }
        }),
{
    lemma_tier_field_ok(tier);
    crate::canonical::lemma_field_fits(tier);
    lemma_readback_split(c, name, tier, body);
    let w = written(c, name, tier, body);
    let h = header_and_body(w).0;
    let b = header_and_body(w).1;
    let q = written_at(c, name) - body_start(w);
    let blk = section_block(name, tier, new_version(c, name), body);
    let x = b.subrange(0, q);
    let r = b.subrange(q + blk.len(), b.len() as int);
    lemma_readback_indexed(h, x, r, name, tier, new_version(c, name), body);
}

} // verus!
