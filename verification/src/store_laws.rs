//! What holds of files made of a header, an index block and section blocks, and so of every
//! file that valid writes make from a header line: the index lists each section at its exact
//! byte offset, a rebuild repairs any stale index, and a write is read back as written while
//! every other section stays as it was.
use vstd::prelude::*;
use crate::block_facts::crlf_free;
use vstd::utf8::encode_utf8;
use crate::canonical::{
    block_entries, block_text, blocks_ok, blocks_text, body_ok, cleared, entries_ok, field_ok, file_of, header_ok,
    lemma_block_entries, lemma_rebuilt_blocks, stored_body, Block,
};
use crate::file_facts::{lemma_file_index, lemma_file_read, lemma_first_named, offset_limit};
use crate::layout::{durable_tag, end_tag, index_close_tag, index_of, mark_tag, read_at, ReadOutcome};
use crate::bytes::{find_from, occurs_at};
use crate::store::{after_write, checkpoint_name, first_named, fixed_tag, is_tier, volatile_tag};
use crate::write_facts::{lemma_written_file, named_block_from, rewritten};
use crate::writer::{index_block, marker_pos, rebuilt, section_block, write_defined, written, MarkerEntry};
use crate::written_blocks::{lemma_rewritten, same_content, written_index, written_version};

verus! {

/// Every body in `bs` reads back byte for byte (no `"\r\n"` for line reading to fold).
pub open spec fn bodies_crlf_free(bs: Seq<Block>) -> bool {
    forall|i: int| 0 <= i < bs.len() ==> crlf_free(stored_body(#[trigger] bs[i].body))
}

/// The three tier tags can stand in a marker line and an index row.
pub proof fn lemma_tier_field_ok(t: Seq<u8>)
    requires
        is_tier(t),
    ensures
        field_ok(t),
{
    crate::date::lemma_ascii_valid(t);
    assert(crate::seq_facts::lacks(t, 58u8));
    assert(crate::seq_facts::lacks(t, 37u8));
    assert forall|i: int| 0 <= i < t.len() implies crate::unicode::ws_len(t.push(32u8), i) == 0 by {
        assert(t.push(32u8)[i] == t[i]);
    }
}

/// The file the store writes from header `h` and blocks `bs` is `h`, an index block listing the
/// blocks, and the blocks.
proof fn lemma_file_parts(h: Seq<u8>, bs: Seq<Block>)
    requires
        blocks_ok(bs),
    ensures
        ({
            let es = block_entries(bs, 0);
            let base = h.len() + index_block(es, 0).len();
            &&& entries_ok(es)
            &&& file_of(h, bs) == h + index_block(es, base as nat) + crate::canonical::blocks_text(
                bs,
            )
        }),
{
    lemma_block_entries(bs, 0);
}

/// Rebuilding the index of a file made of a header, any index block (a stale one too) and
/// section blocks gives the file whose index lists exactly those blocks.
pub proof fn law_rebuild_repairs_index(h: Seq<u8>, es: Seq<MarkerEntry>, base: nat, bs: Seq<Block>)
    requires
        header_ok(h),
        entries_ok(es),
        blocks_ok(bs),
    ensures
        rebuilt(h + index_block(es, base) + crate::canonical::blocks_text(bs)) == file_of(
            h,
            cleared(bs),
        ),
{
    lemma_rebuilt_blocks(h, es, base, bs);
}

/// Rebuilding the index twice gives what rebuilding it once gives.
pub proof fn law_rebuild_idempotent(h: Seq<u8>, bs: Seq<Block>)
    requires
        header_ok(h),
        blocks_ok(bs),
    ensures
        rebuilt(rebuilt(file_of(h, bs))) == rebuilt(file_of(h, bs)),
        rebuilt(file_of(h, bs)) == file_of(h, cleared(bs)),
{
    lemma_file_parts(h, bs);
    let es = block_entries(bs, 0);
    let base = (h.len() + index_block(es, 0).len()) as nat;
    lemma_rebuilt_blocks(h, es, base, bs);
    let cb = cleared(bs);
    assert(blocks_ok(cb)) by {
        assert forall|i: int| 0 <= i < cb.len() implies crate::canonical::block_ok(#[trigger] cb[i]) by {
            assert(crate::canonical::block_ok(bs[i]));
        }
    }
    lemma_file_parts(h, cb);
    let es2 = block_entries(cb, 0);
    let base2 = (h.len() + index_block(es2, 0).len()) as nat;
    lemma_rebuilt_blocks(h, es2, base2, cb);
    assert(cleared(cb) =~= cb);
}

/// In a file the store wrote (below ten-digit offsets), the index lists every section in order,
/// each at the exact byte offset of its marker line: reading there gives the section's body.
pub proof fn law_index_offsets_exact(h: Seq<u8>, bs: Seq<Block>, i: int)
    requires
        header_ok(h),
        blocks_ok(bs),
        file_of(h, bs).len() < offset_limit(),
        0 <= i < bs.len(),
        crlf_free(stored_body(bs[i].body)),
    ensures
        index_of(file_of(h, bs)).1,
        index_of(file_of(h, bs)).0.len() == bs.len(),
        index_of(file_of(h, bs)).0[i].name == bs[i].name,
        index_of(file_of(h, bs)).0[i].tier == bs[i].tier,
        index_of(file_of(h, bs)).0[i].version == bs[i].version,
        read_at(file_of(h, bs), index_of(file_of(h, bs)).0[i].offset as nat, bs[i].name) == ReadOutcome::Body(
            stored_body(bs[i].body),
        ),
{
    lemma_file_index(h, bs);
    lemma_file_read(h, bs, i);
}

/// The file after a write, as a header and blocks.
#[verifier::rlimit(30)]
pub proof fn lemma_after_write(
    h: Seq<u8>,
    bs: Seq<Block>,
    name: Seq<u8>,
    tier: Seq<u8>,
    body: Seq<u8>,
)
    requires
        header_ok(h),
        blocks_ok(bs),
        field_ok(name),
        field_ok(tier),
        body_ok(body),
        named_block_from(bs, name, 0) matches Some(i) ==> bs[i].version < u32::MAX,
    ensures
        write_defined(file_of(h, bs), name),
        after_write(file_of(h, bs), name, tier, body) == file_of(
            h,
            cleared(rewritten(bs, name, tier, body)),
        ),
        blocks_ok(cleared(rewritten(bs, name, tier, body))),
{
    lemma_file_parts(h, bs);
    let es = block_entries(bs, 0);
    let base = (h.len() + index_block(es, 0).len()) as nat;
    lemma_written_file(h, es, base, bs, name, tier, body);
    lemma_rewritten(bs, name, tier, body);
    let r = rewritten(bs, name, tier, body);
    assert(blocks_ok(r)) by {
        assert forall|k: int| 0 <= k < r.len() implies crate::canonical::block_ok(#[trigger] r[k]) by {
            assert(crate::canonical::block_ok(cleared(r)[k]));
        }
    }
    lemma_rebuilt_blocks(h, es, base, r);
}

/// The index of a file the store wrote, searched by name, finds the first block of that name.
proof fn lemma_index_names(h: Seq<u8>, bs: Seq<Block>, n: Seq<u8>)
    requires
        header_ok(h),
        blocks_ok(bs),
        file_of(h, bs).len() < offset_limit(),
    ensures
        first_named(index_of(file_of(h, bs)).0, n) == named_block_from(bs, n, 0),
        index_of(file_of(h, bs)).0.len() == bs.len(),
{
    lemma_file_index(h, bs);
    lemma_block_entries(bs, 0);
    let idx = index_of(file_of(h, bs)).0;
    assert forall|i: int| 0 <= i < bs.len() implies (#[trigger] idx[i]).name == bs[i].name by {
        assert(block_entries(bs, 0)[i].name == bs[i].name);
    }
    lemma_first_named(idx, bs, n, 0);
}

/// What a write stores is what a read gives back: after writing `body` to section `name` with a
/// valid tier, the index lists `name` with that tier and a version one higher than before (1
/// for a new section), and reading it gives `body` (with a final line break added if missing).
pub proof fn law_read_after_write(
    h: Seq<u8>,
    bs: Seq<Block>,
    name: Seq<u8>,
    tier: Seq<u8>,
    body: Seq<u8>,
)
    requires
        header_ok(h),
        blocks_ok(bs),
        field_ok(name),
        is_tier(tier),
        body_ok(body),
        crlf_free(stored_body(body)),
        named_block_from(bs, name, 0) matches Some(i) ==> bs[i].version < u32::MAX,
        after_write(file_of(h, bs), name, tier, body).len() < offset_limit(),
    ensures
        write_defined(file_of(h, bs), name),
        ({
            let new = after_write(file_of(h, bs), name, tier, body);
            let idx = index_of(new).0;
            let j = written_index(bs, name);
            &&& index_of(new).1
            &&& first_named(idx, name) == Some(j)
            &&& idx[j].tier == tier
            &&& idx[j].version == written_version(bs, name)
            &&& read_at(new, idx[j].offset as nat, name) == ReadOutcome::Body(stored_body(body))
        }),
{
    lemma_tier_field_ok(tier);
    lemma_after_write(h, bs, name, tier, body);
    let bs2 = cleared(rewritten(bs, name, tier, body));
    lemma_rewritten(bs, name, tier, body);
    let j = written_index(bs, name);
    lemma_index_names(h, bs2, name);
    lemma_file_read(h, bs2, j);
    let new = after_write(file_of(h, bs), name, tier, body);
    assert(new == file_of(h, bs2));
    assert(index_of(new).1) by {
        lemma_file_index(h, bs2);
    }
    assert(first_named(index_of(new).0, name) == Some(j));
    assert(index_of(new).0[j].tier == tier);
    assert(index_of(new).0[j].version == written_version(bs, name));
}

/// Writing one section leaves every other section as it was: searched by another name, the
/// index finds the same row, with the same tier and version, and reading it gives the same
/// body.
pub proof fn law_write_keeps_others(
    h: Seq<u8>,
    bs: Seq<Block>,
    name: Seq<u8>,
    tier: Seq<u8>,
    body: Seq<u8>,
    other: Seq<u8>,
)
    requires
        header_ok(h),
        blocks_ok(bs),
        field_ok(name),
        is_tier(tier),
        body_ok(body),
        named_block_from(bs, name, 0) matches Some(i) ==> bs[i].version < u32::MAX,
        bodies_crlf_free(bs),
        file_of(h, bs).len() < offset_limit(),
        after_write(file_of(h, bs), name, tier, body).len() < offset_limit(),
        other != name,
    ensures
        ({
            let old_file = file_of(h, bs);
            let new = after_write(old_file, name, tier, body);
            let old_idx = index_of(old_file).0;
            let idx = index_of(new).0;
            &&& first_named(idx, other) == first_named(old_idx, other)
            &&& first_named(old_idx, other) matches Some(k) ==> {
                &&& idx[k].tier == old_idx[k].tier
                &&& idx[k].version == old_idx[k].version
                &&& read_at(new, idx[k].offset as nat, other) == read_at(
                    old_file,
                    old_idx[k].offset as nat,
                    other,
                )
            }
        }),
{
    lemma_tier_field_ok(tier);
    lemma_after_write(h, bs, name, tier, body);
    let bs2 = cleared(rewritten(bs, name, tier, body));
    lemma_rewritten(bs, name, tier, body);
    lemma_index_names(h, bs, other);
    lemma_index_names(h, bs2, other);
    crate::write_facts::lemma_named_block_from(bs, other, 0);
    if let Some(k) = named_block_from(bs, other, 0) {
        let j = written_index(bs, name);
        crate::write_facts::lemma_named_block_from(bs, name, 0);
        assert(k != j);
        assert(same_content(bs2[k], bs[k]));
        assert(crlf_free(stored_body(bs[k].body)));
        lemma_file_read(h, bs, k);
        lemma_file_read(h, bs2, k);
    }
}

/// A header of one line: text the format can carry before the index, ending with its only
/// line break.
pub open spec fn header_line_ok(h: Seq<u8>) -> bool {
    &&& header_ok(h)
    &&& h.len() > 0
    &&& forall|j: int| 0 <= j < h.len() - 1 ==> h[j] != 10u8
}

/// The first write to a file that holds only its header line appends a block at version 1 after
/// a blank line and puts an index block listing it between the header and the block.
#[verifier::rlimit(40)]
pub proof fn lemma_first_write(h: Seq<u8>, name: Seq<u8>, tier: Seq<u8>, body: Seq<u8>)
    requires
        header_line_ok(h),
        field_ok(name),
        field_ok(tier),
        body_ok(body),
    ensures
        write_defined(h, name),
        after_write(h, name, tier, body) == file_of(
            h,
            seq![Block { name: name, tier: tier, version: 1, body: body, gap: true }],
        ),
{
    let b = Block { name: name, tier: tier, version: 1, body: body, gap: true };
    let bs = seq![b];
    let blk = section_block(name, tier, 1, body);
    let nl = seq![10u8];
    let hn = h.len() as int;
    crate::writer::lemma_marker_from(h, name, 0);
    if let Some(k) = marker_pos(h, name) {
        crate::write_facts::lemma_occurs_prefix(h, mark_tag(), name, k);
    }
    let c = written(h, name, tier, body);
    assert(c == h + blocks_text(bs)) by {
        crate::write_facts::lemma_blocks_one(b);
        assert(c =~= h + block_text(b));
    }
    assert(c =~= (h + nl) + blk) by {
        crate::write_facts::lemma_blocks_one(b);
    }
    crate::canonical::lemma_header_free(h, nl + blk, index_close_tag());
    assert(c =~= h + (nl + blk));
    assert forall|j: int| 0 <= j < hn + 1 implies !occurs_at(c, index_close_tag(), j) by {
        if j == hn && occurs_at(c, index_close_tag(), j) {
            assert(c.subrange(j, j + 11)[0] == c[j]);
        }
    }
    crate::bytes::lemma_find_from_skip(c, index_close_tag(), 0, hn + 1);
    crate::seq_facts::lemma_find_shift(h + nl, blk, index_close_tag(), 0);
    assert(find_from(blk, index_close_tag(), 0) is None) by {
        crate::write_facts::lemma_block_end_local(b, Seq::<u8>::empty());
        assert(blk + Seq::<u8>::empty() =~= blk);
        crate::bytes::lemma_find_from(blk, end_tag(), 0);
        crate::bytes::lemma_find_from(blk, index_close_tag(), 0);
        if let Some(k) = find_from(blk, index_close_tag(), 0) {
            assert(index_close_tag() =~= end_tag() + seq![45u8, 73u8, 78u8, 68u8, 69u8, 88u8]);
            crate::write_facts::lemma_occurs_prefix(
                blk,
                end_tag(),
                seq![45u8, 73u8, 78u8, 68u8, 69u8, 88u8],
                k,
            );
        }
    }
    assert(find_from(c, nl, 0) == Some(hn - 1)) by {
        assert forall|j: int| 0 <= j < hn - 1 implies !occurs_at(c, nl, j) by {
            if occurs_at(c, nl, j) {
                assert(c.subrange(j, j + 1)[0] == c[j]);
                assert(c[j] == h[j]);
            }
        }
        crate::bytes::lemma_find_from_skip(c, nl, 0, hn - 1);
        assert(c[hn - 1] == h[hn - 1]);
        assert(c.subrange(hn - 1, hn) =~= nl);
        crate::seq_facts::lemma_find_here(c, nl, hn - 1);
    }
    assert(c.subrange(0, hn) =~= h);
    assert(c.subrange(hn, c.len() as int) =~= blocks_text(bs));
    assert(blocks_ok(bs)) by {
        assert forall|i: int| 0 <= i < bs.len() implies crate::canonical::block_ok(#[trigger] bs[i]) by {
            assert(bs[i] == b);
        }
    }
    crate::canonical::lemma_scan_blocks(Seq::<u8>::empty(), bs);
    assert(Seq::<u8>::empty() + blocks_text(bs) =~= blocks_text(bs));
}

/// Reading back the first write to a file that holds only its header line: the index lists
/// `name` alone, with the tier written and version 1, at the offset of its marker line, and
/// reading it gives `body` (with a final line break added if missing).
pub proof fn law_first_write_reads_back(h: Seq<u8>, name: Seq<u8>, tier: Seq<u8>, body: Seq<u8>)
    requires
        header_line_ok(h),
        field_ok(name),
        is_tier(tier),
        body_ok(body),
        crlf_free(stored_body(body)),
        after_write(h, name, tier, body).len() < offset_limit(),
    ensures
        write_defined(h, name),
        ({
            let new = after_write(h, name, tier, body);
            let idx = index_of(new).0;
            &&& index_of(new).1
            &&& idx.len() == 1
            &&& idx[0].name == name
            &&& idx[0].tier == tier
            &&& idx[0].version == 1
            &&& read_at(new, idx[0].offset as nat, name) == ReadOutcome::Body(stored_body(body))
        }),
{
    lemma_tier_field_ok(tier);
    lemma_first_write(h, name, tier, body);
    let bs = seq![Block { name: name, tier: tier, version: 1, body: body, gap: true }];
    assert(blocks_ok(bs)) by {
        assert forall|i: int| 0 <= i < bs.len() implies crate::canonical::block_ok(#[trigger] bs[i]) by {
            assert(bs[i] == bs[0]);
        }
    }
    lemma_file_index(h, bs);
    lemma_file_read(h, bs, 0);
    lemma_block_entries(bs, 0);
}

/// The file after the writes `ws` (section name, tier, body), one after another, starting from
/// `h`.
pub open spec fn file_after_writes(h: Seq<u8>, ws: Seq<(Seq<u8>, Seq<u8>, Seq<u8>)>) -> Seq<u8>
    decreases ws.len(),
{
    if ws.len() == 0 {
        h
    } else {
        let w = ws.last();
        after_write(file_after_writes(h, ws.drop_last()), w.0, w.1, w.2)
    }
}

/// The blocks the writes `ws` leave in a file that held only its header line.
pub open spec fn blocks_after_writes(ws: Seq<(Seq<u8>, Seq<u8>, Seq<u8>)>) -> Seq<Block>
    decreases ws.len(),
{
    if ws.len() == 0 {
        seq![]
    } else if ws.len() == 1 {
        seq![Block { name: ws[0].0, tier: ws[0].1, version: 1, body: ws[0].2, gap: true }]
    } else {
        let w = ws.last();
        cleared(rewritten(blocks_after_writes(ws.drop_last()), w.0, w.1, w.2))
    }
}

/// Writes the store accepts and the format can carry: a name that can stand in a marker line,
/// one of the three tiers, and a body holding neither `%%@` nor `%%END`.
pub open spec fn writes_ok(ws: Seq<(Seq<u8>, Seq<u8>, Seq<u8>)>) -> bool {
    forall|i: int|
        0 <= i < ws.len() ==> field_ok(#[trigger] ws[i].0) && is_tier(ws[i].1) && body_ok(ws[i].2)
}

/// What holds of the blocks of a file after writes: each can stand in the format, carries one of
/// the three tiers and a version no higher than the number of writes, and no two share a name.
pub open spec fn blocks_sound(bs: Seq<Block>, writes: nat) -> bool {
    &&& blocks_ok(bs)
    &&& forall|i: int| 0 <= i < bs.len() ==> is_tier(#[trigger] bs[i].tier)
    &&& forall|i: int| 0 <= i < bs.len() ==> 1 <= #[trigger] bs[i].version <= writes
    &&& forall|i: int, j: int| 0 <= i < j < bs.len() ==> bs[i].name != bs[j].name
}

/// Every file the store writes from a header line stays in shape: after any run of valid writes
/// (fewer than `u32::MAX`), each write was defined on the file it met, and the file is the
/// header, an index block listing every section in file order, and the sections, which carry
/// valid tiers and distinct names. The laws on such files (exact offsets, read after write,
/// other sections kept, rebuild idempotent) then hold after every write.
pub proof fn law_writes_keep_shape(h: Seq<u8>, ws: Seq<(Seq<u8>, Seq<u8>, Seq<u8>)>)
    requires
        header_line_ok(h),
        writes_ok(ws),
        0 < ws.len() < u32::MAX,
    ensures
        forall|k: int| 0 <= k < ws.len() ==> write_defined(
            #[trigger] file_after_writes(h, ws.take(k)),
            ws[k].0,
        ),
        file_after_writes(h, ws) == file_of(h, blocks_after_writes(ws)),
        blocks_sound(blocks_after_writes(ws), ws.len()),
    decreases ws.len(),
{
    let w = ws.last();
    assert(ws.take(ws.len() - 1) =~= ws.drop_last());
    assert(field_ok(ws[ws.len() - 1].0) && is_tier(ws[ws.len() - 1].1) && body_ok(ws[ws.len() - 1].2));
    lemma_tier_field_ok(w.1);
    if ws.len() == 1 {
        assert(ws.drop_last() =~= Seq::<(Seq<u8>, Seq<u8>, Seq<u8>)>::empty());
        assert(file_after_writes(h, ws.drop_last()) == h);
        lemma_first_write(h, w.0, w.1, w.2);
        assert(ws.take(0) =~= ws.drop_last());
        let bs = blocks_after_writes(ws);
        assert(blocks_ok(bs)) by {
            assert forall|i: int| 0 <= i < bs.len() implies crate::canonical::block_ok(#[trigger] bs[i]) by {
                assert(bs[i] == bs[0]);
            }
        }
    } else {
        let prev = ws.drop_last();
        assert(writes_ok(prev)) by {
            assert forall|i: int| 0 <= i < prev.len() implies field_ok(#[trigger] prev[i].0) && is_tier(
                prev[i].1,
            ) && body_ok(prev[i].2) by {
                assert(prev[i] == ws[i]);
            }
        }
        law_writes_keep_shape(h, prev);
        let bs = blocks_after_writes(prev);
        crate::write_facts::lemma_named_block_from(bs, w.0, 0);
        lemma_after_write(h, bs, w.0, w.1, w.2);
        lemma_rewritten(bs, w.0, w.1, w.2);
        assert forall|k: int| 0 <= k < ws.len() implies write_defined(
            #[trigger] file_after_writes(h, ws.take(k)),
            ws[k].0,
        ) by {
            if k < prev.len() {
                assert(ws.take(k) =~= prev.take(k));
                assert(ws[k] == prev[k]);
            }
        }
        let bs2 = blocks_after_writes(ws);
        let j = written_index(bs, w.0);
        assert(bs2 == cleared(rewritten(bs, w.0, w.1, w.2)));
        assert forall|i: int| 0 <= i < bs2.len() implies is_tier(#[trigger] bs2[i].tier) && 1
            <= bs2[i].version <= ws.len() by {
            if i != j {
                assert(same_content(bs2[i], bs[i]));
            }
        }
        assert forall|a: int, b: int| 0 <= a < b < bs2.len() implies bs2[a].name != bs2[b].name by {
            if a != j && b != j {
                assert(same_content(bs2[a], bs[a]));
                assert(same_content(bs2[b], bs[b]));
            } else if a == j {
                assert(same_content(bs2[b], bs[b]));
                if named_block_from(bs, w.0, 0) is None {
                    assert(b < bs.len());
                } else {
                    assert(bs[a].name == w.0);
                }
            } else {
                assert(same_content(bs2[a], bs[a]));
                if named_block_from(bs, w.0, 0) is None {
                    assert(a < bs.len());
                } else {
                    assert(bs[b].name == w.0);
                }
            }
        }
    }
}

/// Checkpointing is writing section `checkpoint` with tier `!volatile`: those are the bytes of
/// the two strings, and the tier is one of the three, so the contract of `Store::write` for
/// them states the same file and index as the contract of `Store::checkpoint`.
pub proof fn law_checkpoint_is_write()
    ensures
        encode_utf8("checkpoint"@) == checkpoint_name(),
        encode_utf8("!volatile"@) == volatile_tag(),
        is_tier(volatile_tag()),
{
    reveal_strlit("checkpoint");
    reveal_strlit("!volatile");
    vstd::string::is_ascii_spec_bytes("checkpoint");
    vstd::string::is_ascii_spec_bytes("!volatile");
    assert(encode_utf8("checkpoint"@) =~= checkpoint_name());
    assert(encode_utf8("!volatile"@) =~= volatile_tag());
}

} // verus!
