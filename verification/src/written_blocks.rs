//! What writing one section does to the list of blocks: one block is replaced or appended, and
//! every other block keeps its content and its place.
use vstd::prelude::*;
use crate::canonical::{block_ok, blocks_ok, body_ok, cleared, field_ok, Block};
use crate::write_facts::{lemma_named_block_from, named_block_from, rewritten};

verus! {

/// Where the written block stands among the blocks after a write of section `name`.
pub open spec fn written_index(bs: Seq<Block>, name: Seq<u8>) -> int {
    match named_block_from(bs, name, 0) {
        Some(i) => i,
        None => bs.len() as int,
    }
}

/// The version the written block gets: one more than the block it replaces, or 1.
pub open spec fn written_version(bs: Seq<Block>, name: Seq<u8>) -> u32 {
    match named_block_from(bs, name, 0) {
        Some(i) => (bs[i].version + 1) as u32,
        None => 1,
    }
}

/// Two blocks with the same name, tier, version and body.
pub open spec fn same_content(a: Block, b: Block) -> bool {
    a.name == b.name && a.tier == b.tier && a.version == b.version && a.body == b.body
}

/// Searching two block lists whose names agree on the shorter one, and whose extra blocks are
/// not named `n`, finds the same block.
proof fn lemma_named_same(a: Seq<Block>, b: Seq<Block>, n: Seq<u8>, k: int)
    requires
        a.len() <= b.len(),
        forall|i: int| 0 <= i < a.len() ==> (#[trigger] a[i]).name == b[i].name,
        forall|i: int| a.len() <= i < b.len() ==> (#[trigger] b[i]).name != n,
        0 <= k,
    ensures
        named_block_from(a, n, k) == named_block_from(b, n, k),
    decreases b.len() - k,
{
    if k < a.len() {
        assert(a[k].name == b[k].name);
        lemma_named_same(a, b, n, k + 1);
    } else if k < b.len() {
        assert(b[k].name != n);
        lemma_named_same(a, b, n, k + 1);
    }
}

/// The blocks after a write of section `name` (with the blank line before the first dropped,
/// as the index rebuild does).
pub proof fn lemma_rewritten(bs: Seq<Block>, name: Seq<u8>, tier: Seq<u8>, body: Seq<u8>)
    requires
        blocks_ok(bs),
        field_ok(name),
        field_ok(tier),
        body_ok(body),
    ensures
        ({
            let bs2 = cleared(rewritten(bs, name, tier, body));
            let j = written_index(bs, name);
            &&& blocks_ok(bs2)
            &&& 0 <= j < bs2.len()
            &&& bs2.len() == bs.len() || (bs2.len() == bs.len() + 1 && j == bs.len())
            &&& bs2[j].name == name
            &&& bs2[j].tier == tier
            &&& bs2[j].body == body
            &&& bs2[j].version == written_version(bs, name)
            &&& named_block_from(bs2, name, 0) == Some(j)
            &&& forall|n: Seq<u8>| n != name ==> named_block_from(bs2, n, 0) == named_block_from(
                bs,
                n,
                0,
            )
            &&& forall|k: int| 0 <= k < bs.len() && k != j ==> same_content(#[trigger] bs2[k], bs[k])
        }),
{
    let r = rewritten(bs, name, tier, body);
    let bs2 = cleared(r);
    let j = written_index(bs, name);
    lemma_named_block_from(bs, name, 0);
    assert forall|k: int| 0 <= k < bs2.len() implies same_content(#[trigger] bs2[k], r[k]) by {}
    match named_block_from(bs, name, 0) {
        Some(i) => {
            let nb = Block {
                name: name,
                tier: tier,
                version: (bs[i].version + 1) as u32,
                body: body,
                gap: bs[i].gap,
            };
            let rest = cleared(bs.skip(i + 1));
            assert(r == bs.take(i) + seq![nb] + rest);
            assert(r.len() == bs.len());
            assert forall|k: int| 0 <= k < bs.len() && k != i implies same_content(
                #[trigger] bs2[k],
                bs[k],
            ) by {
                if k < i {
                    assert(r[k] == bs.take(i)[k]);
                } else {
                    assert(r[k] == rest[k - i - 1]);
                    assert(bs.skip(i + 1)[k - i - 1] == bs[k]);
                }
            }
            assert(r[i] == nb);
            assert forall|k: int| 0 <= k < bs.len() implies (#[trigger] bs[k]).name == bs2[k].name by {
                if k != i {
                    assert(same_content(bs2[k], bs[k]));
                }
            }
            assert forall|n: Seq<u8>| n != name implies named_block_from(bs2, n, 0)
                == named_block_from(bs, n, 0) by {
                lemma_named_same(bs, bs2, n, 0);
            }
            lemma_named_same(bs, bs2, name, 0);
            assert forall|k: int| 0 <= k < bs2.len() implies block_ok(#[trigger] bs2[k]) by {
                if k != i {
                    assert(same_content(bs2[k], bs[k]));
                    assert(block_ok(bs[k]));
                }
            }
        },
        None => {
            let nb = Block { name: name, tier: tier, version: 1, body: body, gap: true };
            assert(r == bs.push(nb));
            assert forall|k: int| 0 <= k < bs.len() implies same_content(#[trigger] bs2[k], bs[k]) by {
                assert(r[k] == bs[k]);
            }
            assert forall|k: int| 0 <= k < bs.len() implies (#[trigger] bs[k]).name == bs2[k].name by {
                assert(same_content(bs2[k], bs[k]));
            }
            assert(bs2[bs.len() as int].name == name);
            assert forall|n: Seq<u8>| n != name implies named_block_from(bs2, n, 0)
                == named_block_from(bs, n, 0) by {
                lemma_named_same(bs, bs2, n, 0);
            }
            lemma_named_skip_all(bs2, name, bs.len() as int);
            assert forall|k: int| 0 <= k < bs2.len() implies block_ok(#[trigger] bs2[k]) by {
                if k < bs.len() {
                    assert(same_content(bs2[k], bs[k]));
                    assert(block_ok(bs[k]));
                }
            }
        },
    }
}

/// With no block named `name` before `j`, and block `j` named `name`, the search finds `j`.
proof fn lemma_named_skip_all(bs: Seq<Block>, name: Seq<u8>, j: int)
    requires
        0 <= j < bs.len(),
        bs[j].name == name,
        forall|k: int| 0 <= k < j ==> (#[trigger] bs[k]).name != name,
    ensures
        named_block_from(bs, name, 0) == Some(j),
{
    lemma_named_block_from(bs, name, 0);
    if let Some(k) = named_block_from(bs, name, 0) {
        assert(k <= j);
    }
}

} // verus!
