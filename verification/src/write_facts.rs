//! What writing one section does to a file made of a header, an index block and section blocks.
use vstd::prelude::*;
use crate::bytes::{find_from, lemma_find_from, lemma_find_from_skip, newline_or_end, occurs_at, skip_newlines, starts_with};
use crate::canonical::{
    block_entries, block_ok, block_text, blocks_ok, blocks_text, entries_ok, field_ok, gap_text,
    lemma_block_shape, lemma_marker_line_bytes, marker_line, stored_body, Block,
};
use crate::block_facts::lemma_block_at;
use crate::layout::{end_tag, mark_tag, version_tag};
use crate::canonical::cleared;
use crate::numbers::{decimal, is_digit, lemma_decimal_digits};
use crate::seq_facts::{
    lacks, lacks_from, lemma_find_here, lemma_find_skip_prefix, lemma_next_token_at,
    lemma_occurs_shift, lemma_skip_ws_none, lemma_skip_ws_one, lemma_token_end_at,
};
use crate::unicode::{next_token, ws_len};
use crate::writer::{
    first_v_version, line_start, marker_at, marker_from, marker_pos, lemma_marker_from_skip, write_defined, written, index_block, index_rows, marker_version, section_block, section_end,
    version_of_token, MarkerEntry,
};

verus! {

pub proof fn lemma_blocks_concat(a: Seq<Block>, b: Seq<Block>)
    ensures
        blocks_text(a + b) == blocks_text(a) + blocks_text(b),
    decreases a.len(),
{
    if a.len() == 0 {
        assert(a + b =~= b);
        assert(blocks_text(a) + blocks_text(b) =~= blocks_text(b));
    } else {
        assert((a + b).drop_first() =~= a.drop_first() + b);
        assert((a + b)[0] == a[0]);
        lemma_blocks_concat(a.drop_first(), b);
        assert(blocks_text(a + b) =~= blocks_text(a) + blocks_text(b));
    }
}

pub proof fn lemma_blocks_one(b: Block)
    ensures
        blocks_text(seq![b]) == block_text(b),
{
    assert(seq![b].drop_first() =~= Seq::<Block>::empty());
    assert(seq![b][0] == b);
    assert(blocks_text(Seq::<Block>::empty()) == Seq::<u8>::empty());
    assert(blocks_text(seq![b]) == block_text(seq![b][0]) + blocks_text(seq![b].drop_first()));
    assert(block_text(b) + Seq::<u8>::empty() =~= block_text(b));
}

/// The version on a block's marker line is the block's version.
pub proof fn lemma_marker_version_of_line(name: Seq<u8>, tier: Seq<u8>, version: u32, rest: Seq<u8>)
    requires
        field_ok(name),
        field_ok(tier),
    ensures
        marker_version(marker_line(name, tier, version) + seq![10u8] + rest) == version,
{
    let t = marker_line(name, tier, version);
    let s = t + seq![10u8] + rest;
    lemma_marker_line_bytes(name, tier, version);
    assert(s =~= t + (seq![10u8] + rest));
    assert((seq![10u8] + rest).subrange(0, 1) =~= seq![10u8]);
    lemma_find_here(seq![10u8] + rest, seq![10u8], 0);
    lemma_find_skip_prefix(t, seq![10u8] + rest, seq![10u8], 0);
    assert(newline_or_end(s, 0) == t.len());
    assert(s.subrange(0, t.len() as int) =~= t);
    lemma_first_v_version(name, tier, version);
}

/// A token that is not a version is passed over.
proof fn lemma_fv_step(t: Seq<u8>, i: int, s: int, e: int)
    requires
        next_token(t, i) == Some((s, e)),
        !starts_with(t.subrange(s, e), version_tag()),
        i < e <= t.len(),
    ensures
        first_v_version(t, i) == first_v_version(t, e),
{
}

/// The first token that is a version gives the version.
proof fn lemma_fv_hit(t: Seq<u8>, i: int, s: int, e: int)
    requires
        next_token(t, i) == Some((s, e)),
        starts_with(t.subrange(s, e), version_tag()),
    ensures
        first_v_version(t, i) == version_of_token(t.subrange(s, e)),
{
}

#[verifier::rlimit(30)]
proof fn lemma_first_v_version(name: Seq<u8>, tier: Seq<u8>, version: u32)
    requires
        field_ok(name),
        field_ok(tier),
    ensures
        first_v_version(marker_line(name, tier, version), 0) == version,
{
    let t = marker_line(name, tier, version);
    let n = name.len() as int;
    let m = tier.len() as int;
    crate::canonical::lemma_marker_fields(name, tier, version);
    assert(t =~= mark_tag() + (name + seq![32u8] + tier + seq![32u8] + version_tag() + decimal(
        version as nat,
    )));
    assert(next_token(t, 0) == Some((0int, 3 + n))) by {
        assert forall|k: int| 0 <= k < 3 + n implies ws_len(t, k) == 0 by {
            if k < 3 {
                assert(t[k] == mark_tag()[k]);
            }
        }
        lemma_next_token_at(t, 0, 3 + n);
    }
    assert(!starts_with(t.subrange(0, 3 + n), version_tag())) by {
        assert(t.subrange(0, 3 + n).subrange(0, 2)[0] == t[0]);
        assert(t[0] == mark_tag()[0]);
    }
    lemma_fv_step(t, 0, 0, 3 + n);
    assert(!starts_with(t.subrange(4 + n, 4 + n + m), version_tag())) by {
        if m >= 2 {
            assert(t.subrange(4 + n, 4 + n + m).subrange(0, 2)[1] == tier[1]);
            assert(tier[1] != 58u8);
        }
    }
    lemma_fv_step(t, 3 + n, 4 + n, 4 + n + m);
    let vs = 5 + n + m;
    assert(t.subrange(vs, t.len() as int).subrange(0, 2) =~= version_tag());
    lemma_fv_hit(t, 4 + n + m, vs, t.len() as int);
}

/// The first block from `i` on named `name`.
pub open spec fn named_block_from(bs: Seq<Block>, name: Seq<u8>, i: int) -> Option<int>
    decreases bs.len() - i,
{
    if i < 0 || i >= bs.len() {
        None
    } else if bs[i].name == name {
        Some(i)
    } else {
        named_block_from(bs, name, i + 1)
    }
}

pub proof fn lemma_named_block_from(bs: Seq<Block>, name: Seq<u8>, i: int)
    requires
        0 <= i,
    ensures
        named_block_from(bs, name, i) matches Some(k) ==> i <= k < bs.len() && bs[k].name == name
            && forall|j: int| i <= j < k ==> bs[j].name != name,
        named_block_from(bs, name, i) is None ==> forall|j: int| i <= j < bs.len() ==> bs[j].name
            != name,
    decreases bs.len() - i,
{
    if 0 <= i < bs.len() && bs[i].name != name {
        lemma_named_block_from(bs, name, i + 1);
    }
}

pub proof fn lemma_occurs_prefix(c: Seq<u8>, a: Seq<u8>, b: Seq<u8>, j: int)
    requires
        occurs_at(c, a + b, j),
    ensures
        occurs_at(c, a, j),
{
    assert(c.subrange(j, j + a.len()) =~= (a + b).subrange(0, a.len() as int));
    assert((a + b).subrange(0, a.len() as int) =~= a);
}

/// A block not named `name`, whose name does not extend `name` either, has a marker line that
/// differs from `%%@<name>` inside it.
proof fn lemma_line_vs_name(b: Block, name: Seq<u8>) -> (k: int)
    requires
        block_ok(b),
        field_ok(name),
        b.name != name,
        !(name.len() < b.name.len() && b.name.subrange(0, name.len() as int) == name),
    ensures
        ({
            let ml = marker_line(b.name, b.tier, b.version);
            let mp = mark_tag() + name;
            0 <= k < mp.len() && k < ml.len() && ml[k] != mp[k]
        }),
{
    let ml = marker_line(b.name, b.tier, b.version);
    let mp = mark_tag() + name;
    let n = name.len() as int;
    let bn = b.name.len() as int;
    assert(ml =~= mark_tag() + b.name + (seq![32u8] + b.tier + seq![32u8] + version_tag()
        + decimal(b.version as nat)));
    if n <= bn {
        if !(exists|j: int| 0 <= j < n && b.name[j] != name[j]) {
            assert(b.name.subrange(0, n) =~= name);
            if n == bn {
                assert(b.name =~= name);
            }
            assert(false);
        }
        let j = choose|j: int| 0 <= j < n && b.name[j] != name[j];
        assert(ml[3 + j] == b.name[j]);
        assert(mp[3 + j] == name[j]);
        3 + j
    } else {
        assert(ml[3 + bn] == 32u8);
        assert(mp[3 + bn] == name[bn]);
        assert(name.push(32u8)[bn] == name[bn]);
        assert(ws_len(name.push(32u8), bn) == 0);
        3 + bn
    }
}

/// Looking for the marker line of `name` from the start of one block, after whole lines: found
/// at the block's marker when the block is named `name`, otherwise not before the next block.
#[verifier::rlimit(40)]
proof fn lemma_block_search(p: Seq<u8>, b: Block, rest: Seq<u8>, name: Seq<u8>)
    requires
        block_ok(b),
        field_ok(name),
        p.len() == 0 || p.last() == 10u8,
    ensures
        ({
            let c = p + block_text(b) + rest;
            let pos = p.len() + gap_text(b).len();
            &&& b.name == name ==> marker_from(c, name, p.len() as int) == Some(pos as int)
            &&& b.name != name ==> marker_from(c, name, p.len() as int) == marker_from(
                c,
                name,
                (p.len() + block_text(b).len()) as int,
            )
        }),
{
    let c = p + block_text(b) + rest;
    let mp = mark_tag() + name;
    let g = gap_text(b);
    let pos: int = (p.len() + g.len()) as int;
    let n = name.len() as int;
    let ml = marker_line(b.name, b.tier, b.version);
    let end = (p.len() + block_text(b).len()) as int;
    crate::canonical::lemma_block_marker_found(p, b, rest);
    lemma_block_shape(b.name, b.tier, b.version, b.body);
    lemma_marker_line_bytes(b.name, b.tier, b.version);
    assert(c =~= p + g + (section_block(b.name, b.tier, b.version, b.body) + rest));
    assert(ml =~= mark_tag() + b.name + (seq![32u8] + b.tier + seq![32u8] + version_tag()
        + decimal(b.version as nat)));
    assert forall|j: int| p.len() <= j < pos implies !marker_at(c, name, j) by {
        assert(c[j] == g[j - p.len()]);
        if occurs_at(c, mp, j) {
            assert(c.subrange(j, j + mp.len())[0] == c[j]);
        }
    }
    lemma_marker_from_skip(c, name, p.len() as int, pos);
    assert(line_start(c, pos)) by {
        if pos > 0 {
            if b.gap {
                assert(c[pos - 1] == g[0]);
            } else {
                assert(c[pos - 1] == p.last());
            }
        }
    }
    if b.name == name {
        assert(ml.subrange(0, mp.len() as int) =~= mp);
        assert(c.subrange(pos, pos + ml.len()).subrange(0, mp.len() as int) =~= c.subrange(pos, pos + mp.len()));
        assert(c.subrange(pos, pos + mp.len()) =~= mp);
        assert(c[pos + 3 + n] == ml[3 + n]);
        assert(occurs_at(c, mp, pos));
        assert(ws_len(c, pos + 3 + n) == 1);
        assert(marker_at(c, name, pos));
    } else {
        assert(!marker_at(c, name, pos)) by {
            let bn = b.name.len() as int;
            if n < bn && b.name.subrange(0, n) == name {
                assert(c.subrange(pos + 3, pos + 3 + bn + 1) =~= b.name.push(32u8)) by {
                    assert forall|i: int| 0 <= i < bn + 1 implies c.subrange(pos + 3, pos + 3 + bn
                        + 1)[i] == b.name.push(32u8)[i] by {
                        assert(c[pos + 3 + i] == ml[3 + i]);
                    }
                }
                crate::canonical::lemma_ws_len_field(c, pos + 3, b.name, n);
                assert(pos + 3 + n < c.len());
            } else {
                let k = lemma_line_vs_name(b, name);
                if occurs_at(c, mp, pos) {
                    assert(c.subrange(pos, pos + mp.len())[k] == c[pos + k]);
                    assert(c.subrange(pos, pos + ml.len())[k] == c[pos + k]);
                }
            }
        }
        crate::canonical::lemma_block_marker_alone(p, b, rest);
        assert forall|j: int| pos + 1 <= j < end implies !marker_at(c, name, j) by {
            if occurs_at(c, mp, j) {
                lemma_occurs_prefix(c, mark_tag(), name, j);
            }
        }
        lemma_marker_from_skip(c, name, pos + 1, end);
    }
}

/// Looking for the marker line of `name` in the blocks' text after whole lines finds the first
/// block named `name`.
pub proof fn lemma_find_name_in_blocks(p: Seq<u8>, bs: Seq<Block>, name: Seq<u8>)
    requires
        blocks_ok(bs),
        field_ok(name),
        p.len() == 0 || p.last() == 10u8,
    ensures
        marker_from(p + blocks_text(bs), name, p.len() as int) == match named_block_from(
            bs,
            name,
            0,
        ) {
            Some(i) => Some(block_entries(bs, p.len() as int)[i].pos),
            None => None::<int>,
        },
    decreases bs.len(),
{
    let c = p + blocks_text(bs);
    if bs.len() == 0 {
        assert(c =~= p);
    } else {
        let b = bs[0];
        assert(block_ok(b));
        let rest = blocks_text(bs.drop_first());
        let p2 = p + block_text(b);
        assert(c =~= p + block_text(b) + rest);
        assert(c =~= p2 + rest);
        lemma_block_search(p, b, rest, name);
        if b.name != name {
            assert(blocks_ok(bs.drop_first())) by {
                assert forall|i: int| 0 <= i < bs.drop_first().len() implies block_ok(
                    #[trigger] bs.drop_first()[i],
                ) by {
                    assert(bs.drop_first()[i] == bs[i + 1]);
                }
            }
            lemma_block_shape(b.name, b.tier, b.version, b.body);
            assert(p2.last() == 10u8);
            lemma_find_name_in_blocks(p2, bs.drop_first(), name);
            lemma_named_shift(bs, name);
            if let Some(i) = named_block_from(bs.drop_first(), name, 0) {
                lemma_named_block_from(bs.drop_first(), name, 0);
                crate::block_facts::lemma_block_entries_len(bs.drop_first(), p2.len() as int);
                assert(block_entries(bs, p.len() as int)[i + 1] == block_entries(
                    bs.drop_first(),
                    p2.len() as int,
                )[i]);
            }
        }
    }
}

proof fn lemma_named_shift(bs: Seq<Block>, name: Seq<u8>)
    requires
        bs.len() > 0,
        bs[0].name != name,
    ensures
        named_block_from(bs, name, 0) == match named_block_from(bs.drop_first(), name, 0) {
            Some(i) => Some(i + 1),
            None => None::<int>,
        },
{
    lemma_named_shift_from(bs, name, 1);
}

proof fn lemma_named_shift_from(bs: Seq<Block>, name: Seq<u8>, i: int)
    requires
        bs.len() > 0,
        1 <= i,
        forall|j: int| 0 <= j < i && j < bs.len() ==> bs[j].name != name,
    ensures
        named_block_from(bs, name, 0) == match named_block_from(bs.drop_first(), name, i - 1) {
            Some(k) => Some(k + 1),
            None => None::<int>,
        },
    decreases bs.len() - i,
{
    if i < bs.len() && bs[i].name != name {
        lemma_named_shift_from(bs, name, i + 1);
        assert(bs.drop_first()[i - 1] == bs[i]);
    } else if i < bs.len() {
        assert(bs.drop_first()[i - 1] == bs[i]);
        lemma_named_skip(bs, name, 0, i);
    } else {
        lemma_named_skip(bs, name, 0, i);
    }
}

proof fn lemma_named_skip(bs: Seq<Block>, name: Seq<u8>, i: int, j: int)
    requires
        0 <= i <= j,
        forall|k: int| i <= k < j && k < bs.len() ==> bs[k].name != name,
    ensures
        named_block_from(bs, name, i) == named_block_from(bs, name, j),
    decreases j - i,
{
    if i < j {
        lemma_named_skip(bs, name, i + 1, j);
    }
}

/// In a section block, the first `%%END` is the one that closes it.
#[verifier::rlimit(30)]
pub proof fn lemma_block_end_local(b: Block, rest: Seq<u8>)
    requires
        block_ok(b),
    ensures
        find_from(
            section_block(b.name, b.tier, b.version, b.body) + rest,
            end_tag(),
            0,
        ) == Some(section_block(b.name, b.tier, b.version, b.body).len() - 6),
{
    let ml = marker_line(b.name, b.tier, b.version);
    let sb = stored_body(b.body);
    let blk = section_block(b.name, b.tier, b.version, b.body);
    let a = ml + seq![10u8];
    let e = end_tag() + seq![10u8] + rest;
    let y = blk + rest;
    lemma_block_shape(b.name, b.tier, b.version, b.body);
    lemma_marker_line_bytes(b.name, b.tier, b.version);
    assert(y =~= a + (sb + e));
    assert(ml.subrange(0, 3) =~= mark_tag()) by {
        assert(ml =~= mark_tag() + (b.name + seq![32u8] + b.tier + seq![32u8] + version_tag()
            + decimal(b.version as nat)));
    }
    assert(y[2] == ml.subrange(0, 3)[2]);
    assert forall|j: int| 0 <= j < 2 implies !occurs_at(y, end_tag(), j) by {
        if occurs_at(y, end_tag(), j) {
            assert(y.subrange(j, j + 5)[2 - j] == y[2]);
        }
    }
    lemma_find_from_skip(y, end_tag(), 0, 2);
    assert(lacks_from(a, 37u8, 2)) by {
        assert forall|j: int| 2 <= j < a.len() implies a[j] != 37u8 by {
            if j == 2 {
                assert(a[2] == ml.subrange(0, 3)[2]);
            } else if j < ml.len() {
                assert(a[j] == ml[j]);
            }
        }
    }
    crate::seq_facts::lemma_find_skip_prefix(a, sb + e, end_tag(), 2);
    crate::canonical::lemma_stored_free(b.body, end_tag());
    crate::canonical::lemma_free_tail(sb, e, end_tag());
    assert((sb + e).subrange(sb.len() as int, sb.len() + 5int) =~= end_tag());
    lemma_find_from_skip(sb + e, end_tag(), 0, sb.len() as int);
    lemma_find_here(sb + e, end_tag(), sb.len() as int);
}

/// In a block, the first `%%END` after its marker is the one that closes it.
proof fn lemma_block_end(p: Seq<u8>, b: Block, rest: Seq<u8>)
    requires
        block_ok(b),
    ensures
        find_from(
            p + block_text(b) + rest,
            end_tag(),
            (p.len() + gap_text(b).len()) as int,
        ) == Some(p.len() + block_text(b).len() - 6),
{
    let g = gap_text(b);
    let blk = section_block(b.name, b.tier, b.version, b.body);
    lemma_block_end_local(b, rest);
    assert(p + block_text(b) + rest =~= (p + g) + (blk + rest));
    crate::seq_facts::lemma_find_shift(p + g, blk + rest, end_tag(), 0);
}

/// Where the section that starts at a block's marker ends: after the block and after the blank
/// line that may come before the next one.
proof fn lemma_section_end(p: Seq<u8>, b: Block, bs2: Seq<Block>)
    requires
        block_ok(b),
        blocks_ok(bs2),
    ensures
        ({
            let c = p + block_text(b) + blocks_text(bs2);
            let e = section_end(c, (p.len() + gap_text(b).len()) as int);
            &&& p.len() + block_text(b).len() <= e <= c.len()
            &&& c.subrange(e, c.len() as int) == blocks_text(cleared(bs2))
        }),
{
    let c = p + block_text(b) + blocks_text(bs2);
    let q = p + block_text(b);
    lemma_block_end(p, b, blocks_text(bs2));
    lemma_block_shape(b.name, b.tier, b.version, b.body);
    assert(block_text(b).last() == 10u8);
    assert(c =~= p + block_text(b) + blocks_text(bs2));
    crate::canonical::lemma_skip_gap(p, block_text(b), bs2);
    crate::bytes::lemma_skip_newlines(c, q.len() - 1);
    if bs2.len() > 0 {
        crate::canonical::lemma_blocks_start(bs2);
    }
    let e = section_end(c, (p.len() + gap_text(b).len()) as int);
    assert(e == skip_newlines(c, q.len() - 1));
    assert(c[q.len() - 1] == 10u8);
    assert(skip_newlines(c, q.len() - 1) == skip_newlines(c, q.len() as int));
    if bs2.len() > 0 && bs2[0].gap {
        assert(c[q.len() as int] == 10u8);
        assert(c[q.len() + 1int] == 37u8);
    } else if bs2.len() > 0 {
        assert(c[q.len() as int] == 37u8);
    }
}

/// The blocks after writing `body` to section `name` with `tier`: the first block named `name`
/// is replaced by one a version higher (the blank line before the block after it dropped), or a
/// block at version 1 is appended after a blank line.
pub open spec fn rewritten(bs: Seq<Block>, name: Seq<u8>, tier: Seq<u8>, body: Seq<u8>) -> Seq<
    Block,
> {
    match named_block_from(bs, name, 0) {
        Some(i) => bs.take(i) + seq![
            Block {
                name: name,
                tier: tier,
                version: (bs[i].version + 1) as u32,
                body: body,
                gap: bs[i].gap,
            },
        ] + cleared(bs.skip(i + 1)),
        None => bs.push(Block { name: name, tier: tier, version: 1, body: body, gap: true }),
    }
}

/// Where the marker line of `name` first stands in a file made of a header, an index block and
/// blocks.
proof fn lemma_marker_pos_file(
    h: Seq<u8>,
    es: Seq<MarkerEntry>,
    base: nat,
    bs: Seq<Block>,
    name: Seq<u8>,
)
    requires
        crate::canonical::header_ok(h),
        entries_ok(es),
        blocks_ok(bs),
        field_ok(name),
    ensures
        ({
            let p = h + index_block(es, base);
            marker_pos(p + blocks_text(bs), name) == match named_block_from(bs, name, 0) {
                Some(i) => Some(block_entries(bs, p.len() as int)[i].pos),
                None => None::<int>,
            }
        }),
{
    let p = h + index_block(es, base);
    let c = p + blocks_text(bs);
    let mp = mark_tag() + name;
    crate::canonical::lemma_no_mark_in_head(h, es, base, blocks_text(bs));
    assert(c =~= h + index_block(es, base) + blocks_text(bs));
    assert forall|j: int| 0 <= j < p.len() implies !marker_at(c, name, j) by {
        if occurs_at(c, mp, j) {
            lemma_occurs_prefix(c, mark_tag(), name, j);
        }
    }
    lemma_marker_from_skip(c, name, 0, p.len() as int);
    assert(p.last() == 10u8) by {
        let ib = index_block(es, base);
        assert(ib.last() == 10u8);
        assert(p.last() == ib.last());
    }
    lemma_find_name_in_blocks(p, bs, name);
}

proof fn lemma_blocks_ok_parts(bs: Seq<Block>, i: int)
    requires
        blocks_ok(bs),
        0 <= i < bs.len(),
    ensures
        blocks_ok(bs.take(i)),
        blocks_ok(bs.skip(i + 1)),
        blocks_ok(cleared(bs.skip(i + 1))),
        block_ok(bs[i]),
{
    assert forall|k: int| 0 <= k < bs.take(i).len() implies block_ok(#[trigger] bs.take(i)[k]) by {
        assert(bs.take(i)[k] == bs[k]);
    }
    assert forall|k: int| 0 <= k < bs.skip(i + 1).len() implies block_ok(
        #[trigger] bs.skip(i + 1)[k],
    ) by {
        assert(bs.skip(i + 1)[k] == bs[i + 1 + k]);
    }
    let cs = cleared(bs.skip(i + 1));
    assert forall|k: int| 0 <= k < cs.len() implies block_ok(#[trigger] cs[k]) by {
        assert(block_ok(bs.skip(i + 1)[k]));
    }
}

/// Writing a section whose marker is found at block `b`, which follows `q`.
#[verifier::rlimit(60)]
proof fn lemma_written_at(
    q: Seq<u8>,
    b: Block,
    bs2: Seq<Block>,
    name: Seq<u8>,
    tier: Seq<u8>,
    body: Seq<u8>,
)
    requires
        block_ok(b),
        blocks_ok(bs2),
        marker_pos(q + block_text(b) + blocks_text(bs2), name) == Some(
            (q.len() + gap_text(b).len()) as int,
        ),
    ensures
        ({
            let c = q + block_text(b) + blocks_text(bs2);
            let nb = Block {
                name: name,
                tier: tier,
                version: (b.version + 1) as u32,
                body: body,
                gap: b.gap,
            };
            &&& write_defined(c, name) <==> b.version < u32::MAX
            &&& write_defined(c, name) ==> written(c, name, tier, body) == q + block_text(nb)
                + blocks_text(cleared(bs2))
        }),
{
    let c = q + block_text(b) + blocks_text(bs2);
    let r = blocks_text(bs2);
    let start = (q.len() + gap_text(b).len()) as int;
    lemma_block_end(q, b, r);
    lemma_section_end(q, b, bs2);
    lemma_block_shape(b.name, b.tier, b.version, b.body);
    let ml = marker_line(b.name, b.tier, b.version);
    let tail = stored_body(b.body) + end_tag() + seq![10u8] + r;
    assert(c.subrange(start, c.len() as int) =~= ml + seq![10u8] + tail);
    lemma_marker_version_of_line(b.name, b.tier, b.version, tail);
    assert(c.subrange(0, start) =~= q + gap_text(b));
}

/// Writing a section whose marker is not found appends a block.
proof fn lemma_written_none(p: Seq<u8>, bs: Seq<Block>, name: Seq<u8>, tier: Seq<u8>, body: Seq<u8>)
    requires
        marker_pos(p + blocks_text(bs), name) is None,
    ensures
        write_defined(p + blocks_text(bs), name),
        written(p + blocks_text(bs), name, tier, body) == p + blocks_text(
            bs.push(Block { name: name, tier: tier, version: 1, body: body, gap: true }),
        ),
{
    let nb = Block { name: name, tier: tier, version: 1, body: body, gap: true };
    assert(bs.push(nb) =~= bs + seq![nb]);
    lemma_blocks_concat(bs, seq![nb]);
    lemma_blocks_one(nb);
    assert(written(p + blocks_text(bs), name, tier, body) =~= p + blocks_text(bs.push(nb)));
}

proof fn lemma_blocks_three(a: Seq<Block>, b: Block, r: Seq<Block>)
    ensures
        blocks_text(a + seq![b] + r) == blocks_text(a) + block_text(b) + blocks_text(r),
{
    lemma_blocks_concat(a + seq![b], r);
    lemma_blocks_concat(a, seq![b]);
    lemma_blocks_one(b);
}

/// Writing a section whose marker is found at block `i` replaces that block.
proof fn lemma_written_some(
    p: Seq<u8>,
    bs: Seq<Block>,
    i: int,
    name: Seq<u8>,
    tier: Seq<u8>,
    body: Seq<u8>,
)
    requires
        blocks_ok(bs),
        0 <= i < bs.len(),
        marker_pos(p + blocks_text(bs), name) == Some(block_entries(bs, p.len() as int)[i].pos),
    ensures
        ({
            let c = p + blocks_text(bs);
            let nb = Block {
                name: name,
                tier: tier,
                version: (bs[i].version + 1) as u32,
                body: body,
                gap: bs[i].gap,
            };
            &&& write_defined(c, name) <==> bs[i].version < u32::MAX
            &&& write_defined(c, name) ==> written(c, name, tier, body) == p + blocks_text(
                bs.take(i) + seq![nb] + cleared(bs.skip(i + 1)),
            )
        }),
{
    let b = bs[i];
    lemma_blocks_ok_parts(bs, i);
    crate::block_facts::lemma_block_at(bs, p.len() as int, i);
    let q = p + blocks_text(bs.take(i));
    let c = p + blocks_text(bs);
    assert(c == q + block_text(b) + blocks_text(bs.skip(i + 1))) by {
        assert(c =~= q + block_text(b) + blocks_text(bs.skip(i + 1)));
    }
    lemma_written_at(q, b, bs.skip(i + 1), name, tier, body);
    let nb = Block {
        name: name,
        tier: tier,
        version: (b.version + 1) as u32,
        body: body,
        gap: b.gap,
    };
    let rest = cleared(bs.skip(i + 1));
    lemma_blocks_three(bs.take(i), nb, rest);
    assert(p + blocks_text(bs.take(i) + seq![nb] + rest) == q + block_text(nb) + blocks_text(rest))
        by {
        assert(p + (blocks_text(bs.take(i)) + block_text(nb) + blocks_text(rest)) =~= q
            + block_text(nb) + blocks_text(rest));
    }
}

/// Writing one section of a file made of a header, an index block and blocks replaces or
/// appends one block, and is defined unless the version would overflow.
pub proof fn lemma_written_file(
    h: Seq<u8>,
    es: Seq<MarkerEntry>,
    base: nat,
    bs: Seq<Block>,
    name: Seq<u8>,
    tier: Seq<u8>,
    body: Seq<u8>,
)
    requires
        crate::canonical::header_ok(h),
        entries_ok(es),
        blocks_ok(bs),
        field_ok(name),
    ensures
        ({
            let c = h + index_block(es, base) + blocks_text(bs);
            &&& write_defined(c, name) <==> (named_block_from(bs, name, 0) matches Some(i)
                ==> bs[i].version < u32::MAX)
            &&& write_defined(c, name) ==> written(c, name, tier, body) == h + index_block(es, base)
                + blocks_text(rewritten(bs, name, tier, body))
        }),
{
    let p = h + index_block(es, base);
    lemma_marker_pos_file(h, es, base, bs, name);
    lemma_named_block_from(bs, name, 0);
    match named_block_from(bs, name, 0) {
        None => {
            lemma_written_none(p, bs, name, tier, body);
        },
        Some(i) => {
            lemma_written_some(p, bs, i, name, tier, body);
        },
    }
}

} // verus!
