//! The index and the sections of a whole file the store wrote, read back.
use vstd::prelude::*;
use crate::block_facts::{crlf_free, lemma_block_at, lemma_read_block, lemma_rows_len};
use crate::canonical::{
    block_entries, block_ok, block_text, blocks_ok, blocks_text, entries_ok, file_of, gap_text,
    header_ok, lemma_block_entries, stored_body, Block,
};
use crate::index_facts::{entry_view, entry_views, lemma_index_of_block, offsets_fit};
use crate::layout::{index_of, read_at, ReadOutcome, SectionView};
use crate::numbers::{decimal, pow10, zero_pad};
use crate::store::named_from;
use crate::write_facts::named_block_from;
use crate::writer::{index_block, index_row, index_rows, section_block, MarkerEntry};

verus! {

/// Ten decimal digits hold every offset below this.
pub open spec fn offset_limit() -> nat {
    10_000_000_000
}

pub proof fn lemma_offset_limit()
    ensures
        pow10(10) == offset_limit(),
{
    reveal_with_fuel(pow10, 11);
}

/// A padded offset takes at least ten bytes.
pub proof fn lemma_rows_len_ge(es: Seq<MarkerEntry>, base: nat)
    requires
        forall|i: int| 0 <= i < es.len() ==> 0 <= #[trigger] es[i].pos < pow10(10),
    ensures
        index_rows(es, base).len() >= index_rows(es, 0).len(),
        index_block(es, base).len() >= index_block(es, 0).len(),
    decreases es.len(),
{
    if es.len() > 0 {
        assert forall|i: int| 0 <= i < es.drop_last().len() implies 0 <= #[trigger] es.drop_last()[
            i
        ].pos < pow10(10) by {
            assert(es.drop_last()[i] == es[i]);
        }
        lemma_rows_len_ge(es.drop_last(), base);
        let e = es.last();
        assert(e == es[es.len() - 1]);
        crate::block_facts::lemma_pad_width((0 + e.pos) as nat);
        assert(zero_pad(decimal((base + e.pos) as nat), 10).len() >= 10);
    }
}

/// Where each block's marker sits in the text of the blocks.
proof fn lemma_positions(bs: Seq<Block>)
    ensures
        block_entries(bs, 0).len() == bs.len(),
        forall|i: int|
            0 <= i < bs.len() ==> 0 <= #[trigger] block_entries(bs, 0)[i].pos && block_entries(
                bs,
                0,
            )[i].pos < blocks_text(bs).len(),
{
    crate::block_facts::lemma_block_entries_len(bs, 0);
    assert forall|i: int| 0 <= i < bs.len() implies 0 <= #[trigger] block_entries(bs, 0)[i].pos
        && block_entries(bs, 0)[i].pos < blocks_text(bs).len() by {
        lemma_block_at(bs, 0, i);
        crate::canonical::lemma_block_shape(bs[i].name, bs[i].tier, bs[i].version, bs[i].body);
    }
}

/// In a file below the offset limit, the index block is as long as the one listing every
/// offset as 0, so each listed offset is where the block's marker sits.
pub proof fn lemma_file_index(h: Seq<u8>, bs: Seq<Block>)
    requires
        header_ok(h),
        blocks_ok(bs),
        file_of(h, bs).len() < offset_limit(),
    ensures
        ({
            let es = block_entries(bs, 0);
            let base = h.len() + index_block(es, 0).len();
            &&& index_block(es, base as nat).len() == index_block(es, 0).len()
            &&& offsets_fit(es, base as nat)
            &&& index_of(file_of(h, bs)) == (entry_views(es, base as nat), true)
        }),
{
    let es = block_entries(bs, 0);
    let base = (h.len() + index_block(es, 0).len()) as nat;
    let bt = blocks_text(bs);
    lemma_offset_limit();
    lemma_positions(bs);
    lemma_block_entries(bs, 0);
    lemma_rows_len_ge(es, base);
    assert(file_of(h, bs) == h + index_block(es, base) + bt);
    assert forall|i: int| 0 <= i < es.len() implies 0 <= #[trigger] es[i].pos && base + es[i].pos
        < pow10(10) by {}
    lemma_rows_len(es, base);
    crate::canonical::lemma_header_ok_head(h);
    crate::canonical::lemma_entries_fit(es);
    lemma_index_of_block(h, es, base, bt);
}

/// Reading the section at the offset the index lists for block `i` gives the block's body.
#[verifier::spinoff_prover]
#[verifier::rlimit(40)]
pub proof fn lemma_file_read(h: Seq<u8>, bs: Seq<Block>, i: int)
    requires
        header_ok(h),
        blocks_ok(bs),
        file_of(h, bs).len() < offset_limit(),
        0 <= i < bs.len(),
        crlf_free(stored_body(bs[i].body)),
    ensures
        ({
            let idx = index_of(file_of(h, bs)).0;
            &&& idx.len() == bs.len()
            &&& idx[i].name == bs[i].name
            &&& idx[i].tier == bs[i].tier
            &&& idx[i].version == bs[i].version
            &&& read_at(file_of(h, bs), idx[i].offset as nat, bs[i].name) == ReadOutcome::Body(
                stored_body(bs[i].body),
            )
        }),
{
    let es = block_entries(bs, 0);
    let base = (h.len() + index_block(es, 0).len()) as nat;
    let f = file_of(h, bs);
    let b = bs[i];
    lemma_file_index(h, bs);
    lemma_positions(bs);
    lemma_block_at(bs, 0, i);
    let pre = h + index_block(es, base) + blocks_text(bs.take(i)) + gap_text(b);
    let blk = section_block(b.name, b.tier, b.version, b.body);
    assert(f =~= pre + blk + blocks_text(bs.skip(i + 1)));
    let off = pre.len() as int;
    assert(entry_view(es[i], base).offset == off);
    assert(f.subrange(off, off + blk.len()) =~= blk);
    assert(block_ok(b));
    lemma_read_block(f, off, b);
}

/// The first index row named `name` is the row of the first block named `name`.
pub proof fn lemma_first_named(idx: Seq<SectionView>, bs: Seq<Block>, name: Seq<u8>, k: int)
    requires
        idx.len() == bs.len(),
        forall|i: int| 0 <= i < bs.len() ==> (#[trigger] idx[i]).name == bs[i].name,
        0 <= k,
    ensures
        named_from(idx, name, k) == named_block_from(bs, name, k),
    decreases bs.len() - k,
{
    if k < bs.len() {
        assert(idx[k].name == bs[k].name);
        lemma_first_named(idx, bs, name, k + 1);
    }
}

} // verus!
