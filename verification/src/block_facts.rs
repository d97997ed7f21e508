//! Where each block sits in a file the store wrote, and what reading it gives.
use vstd::prelude::*;
use vstd::utf8::{valid_utf8, valid_utf8_concat};
use crate::bytes::{find_from, lemma_find_from, occurs_at, starts_with};
use crate::canonical::{
    block_entries, block_ok, block_text, blocks_ok, blocks_text, field_ok, free_of, gap_text,
    lemma_block_shape, marker_line, no_end_line, stored_body, token_ok, Block,
};
use crate::index_facts::lemma_line_of;
use crate::layout::{end_tag, line_next, line_text, mark_tag, read_at, read_lines, ReadOutcome};
use crate::numbers::{decimal, is_digit, lemma_decimal_digits, pow10, zero_pad};
use crate::seq_facts::lacks;
use crate::writer::{index_block, index_row, index_rows, section_block, MarkerEntry};
use crate::unicode::ws_len;

verus! {

/// No `'\r'` just before a `'\n'`.
pub open spec fn crlf_free(x: Seq<u8>) -> bool {
    forall|i: int| 0 <= i < x.len() - 1 ==> !(#[trigger] x[i] == 13u8 && x[i + 1] == 10u8)
}

/// Padded offsets below 10^10 take ten bytes.
pub proof fn lemma_pad_width(n: nat)
    requires
        n < pow10(10),
    ensures
        zero_pad(decimal(n), 10).len() == 10,
{
    crate::numbers::lemma_decimal_len_pow(n, 10);
}

/// With every offset below 10^10, the index block's length does not depend on the base.
pub proof fn lemma_rows_len(es: Seq<MarkerEntry>, base: nat)
    requires
        forall|i: int| 0 <= i < es.len() ==> 0 <= #[trigger] es[i].pos && base + es[i].pos < pow10(
            10,
        ),
    ensures
        index_rows(es, base).len() == index_rows(es, 0).len(),
        index_block(es, base).len() == index_block(es, 0).len(),
    decreases es.len(),
{
    if es.len() > 0 {
        assert forall|i: int| 0 <= i < es.drop_last().len() implies 0 <= #[trigger] es.drop_last()[i].pos
            && base + es.drop_last()[i].pos < pow10(10) by {
            assert(es.drop_last()[i] == es[i]);
        }
        lemma_rows_len(es.drop_last(), base);
        let e = es.last();
        assert(e == es[es.len() - 1]);
        lemma_pad_width((base + e.pos) as nat);
        lemma_pad_width((0 + e.pos) as nat);
    }
}

/// The bytes the rows of `es` take besides their offsets: each row is its name, its tier and
/// its version's digits, and 15 bytes more (three `':'`, `v`, ten offset digits, a line break).
pub open spec fn row_lengths(es: Seq<MarkerEntry>) -> int
    decreases es.len(),
{
    if es.len() == 0 {
        0
    } else {
        row_lengths(es.drop_last()) + es.last().name.len() + es.last().tier.len() + decimal(
            es.last().version as nat,
        ).len() + 15
    }
}

/// With every offset below 10^10, the index block takes 20 bytes for its two tag lines and the
/// rows' bytes, whatever the base.
pub proof fn law_index_block_len(es: Seq<MarkerEntry>, base: nat)
    requires
        forall|i: int| 0 <= i < es.len() ==> 0 <= #[trigger] es[i].pos && base + es[i].pos < pow10(
            10,
        ),
    ensures
        index_rows(es, base).len() == row_lengths(es),
        index_block(es, base).len() == 20 + row_lengths(es),
    decreases es.len(),
{
    if es.len() > 0 {
        assert forall|i: int| 0 <= i < es.drop_last().len() implies 0 <= #[trigger] es.drop_last()[i].pos
            && base + es.drop_last()[i].pos < pow10(10) by {
            assert(es.drop_last()[i] == es[i]);
        }
        law_index_block_len(es.drop_last(), base);
        let e = es.last();
        assert(e == es[es.len() - 1]);
        lemma_pad_width((base + e.pos) as nat);
    }
}

pub proof fn lemma_block_entries_len(bs: Seq<Block>, at: int)
    ensures
        block_entries(bs, at).len() == bs.len(),
    decreases bs.len(),
{
    if bs.len() > 0 {
        lemma_block_entries_len(bs.drop_first(), at + block_text(bs[0]).len());
    }
}

/// The blocks before block `i`, block `i`, and the ones after it.
pub proof fn lemma_block_at(bs: Seq<Block>, at: int, i: int)
    requires
        0 <= i < bs.len(),
    ensures
        blocks_text(bs) == blocks_text(bs.take(i)) + block_text(bs[i]) + blocks_text(bs.skip(i + 1)),
        block_entries(bs, at)[i].pos == at + blocks_text(bs.take(i)).len() + gap_text(bs[i]).len(),
        block_entries(bs, at)[i].name == bs[i].name,
        block_entries(bs, at)[i].version == bs[i].version,
        block_entries(bs, at)[i].tier == bs[i].tier,
    decreases i,
{
    if i == 0 {
        assert(bs.take(0) =~= Seq::<Block>::empty());
        assert(bs.skip(1) =~= bs.drop_first());
        assert(blocks_text(bs.take(0)) =~= Seq::<u8>::empty());
        assert(blocks_text(bs) =~= Seq::<u8>::empty() + block_text(bs[0]) + blocks_text(bs.skip(1)));
    } else {
        let t = bs.drop_first();
        lemma_block_at(t, at + block_text(bs[0]).len(), i - 1);
        lemma_block_entries_len(t, at + block_text(bs[0]).len());
        assert(t[i - 1] == bs[i]);
        assert(t.skip(i) =~= bs.skip(i + 1));
        assert(bs.take(i).drop_first() =~= t.take(i - 1));
        assert(bs.take(i)[0] == bs[0]);
        assert(blocks_text(bs.take(i)) == block_text(bs[0]) + blocks_text(t.take(i - 1)));
        assert(blocks_text(bs) =~= blocks_text(bs.take(i)) + block_text(bs[i]) + blocks_text(
            bs.skip(i + 1),
        ));
        assert(block_entries(bs, at)[i] == block_entries(t, at + block_text(bs[0]).len())[i - 1]);
    }
}

/// A marker line of tokens is valid UTF-8, holds no line break, does not end with `'\r'`, and
/// starts `%%@`.
pub proof fn lemma_marker_line_text(name: Seq<u8>, tier: Seq<u8>, version: u32)
    requires
        token_ok(name),
        token_ok(tier),
    ensures
        valid_utf8(marker_line(name, tier, version).push(10u8)),
        marker_line(name, tier, version).last() != 13u8,
        lacks(marker_line(name, tier, version), 10u8),
        starts_with(marker_line(name, tier, version).push(10u8), mark_tag()),
{
    let ml = marker_line(name, tier, version);
    let d = decimal(version as nat);
    lemma_decimal_digits(version as nat);
    let tail = seq![32u8] + crate::layout::version_tag() + d + seq![10u8];
    assert forall|j: int| 0 <= j < tail.len() implies tail[j] < 128 by {
        if 3 <= j < 3 + d.len() {
            assert(tail[j] == d[j - 3]);
            assert(is_digit(d[j - 3]));
        }
    }
    crate::date::lemma_ascii_valid(tail);
    crate::date::lemma_ascii_valid(mark_tag());
    crate::date::lemma_ascii_valid(seq![32u8]);
    valid_utf8_concat(mark_tag(), name);
    valid_utf8_concat(mark_tag() + name, seq![32u8]);
    valid_utf8_concat(mark_tag() + name + seq![32u8], tier);
    valid_utf8_concat(mark_tag() + name + seq![32u8] + tier, tail);
    assert(ml.push(10u8) =~= mark_tag() + name + seq![32u8] + tier + tail);
    assert(ml.last() == d.last());
    assert(is_digit(d[d.len() - 1]));
    let n = name.len() as int;
    let m = tier.len() as int;
    assert forall|j: int| 0 <= j < ml.len() implies ml[j] != 10u8 by {
        if 3 <= j < 3 + n {
            assert(ml[j] == name[j - 3]);
            assert(ws_len(name.push(32u8), j - 3) == 0);
            assert(name.push(32u8)[j - 3] == name[j - 3]);
        } else if 4 + n <= j < 4 + n + m {
            assert(ml[j] == tier[j - 4 - n]);
            assert(ws_len(tier.push(32u8), j - 4 - n) == 0);
            assert(tier.push(32u8)[j - 4 - n] == tier[j - 4 - n]);
        } else if j >= 7 + n + m {
            assert(ml[j] == d[j - 7 - n - m]);
            assert(is_digit(d[j - 7 - n - m]));
        }
    }
    assert(ml.push(10u8).subrange(0, 3) =~= mark_tag());
}

/// Reading body lines that make up `sb`, up to the `%%END` line after them.
#[verifier::rlimit(30)]
pub proof fn lemma_read_body_lines(c: Seq<u8>, q: int, sb: Seq<u8>, acc: Seq<u8>)
    requires
        0 <= q,
        q + sb.len() + 6 <= c.len(),
        c.subrange(q, q + sb.len() + 6) == sb + end_tag() + seq![10u8],
        valid_utf8(sb),
        sb.len() == 0 || sb.last() == 10u8,
        no_end_line(sb),
        crlf_free(sb),
    ensures
        read_lines(c, q, acc) == ReadOutcome::Body(acc + sb),
    decreases sb.len(),
{
    if sb.len() == 0 {
        let l = end_tag();
        assert(c.subrange(q, q + 6) =~= l.push(10u8));
        lemma_line_of(c, q, l);
        crate::date::lemma_ascii_valid(l.push(10u8));
        assert(l.subrange(0, 5) =~= l);
        assert(acc + sb =~= acc);
    } else {
        lemma_find_from(sb, seq![10u8], 0);
        assert(sb.subrange(sb.len() - 1, sb.len() as int) =~= seq![10u8]);
        assert(occurs_at(sb, seq![10u8], sb.len() - 1));
        let k = find_from(sb, seq![10u8], 0)->0;
        assert(sb.subrange(k, k + 1)[0] == sb[k]);
        let l = sb.subrange(0, k);
        assert(lacks(l, 10u8)) by {
            assert forall|j: int| 0 <= j < l.len() implies l[j] != 10u8 by {
                assert(l[j] == sb[j]);
                assert(!occurs_at(sb, seq![10u8], j));
                if sb[j] == 10u8 {
                    assert(sb.subrange(j, j + 1) =~= seq![10u8]);
                }
            }
        }
        assert(c.subrange(q, q + k + 1) =~= l.push(10u8)) by {
            assert forall|j: int| 0 <= j < k + 1 implies c.subrange(q, q + k + 1)[j] == l.push(
                10u8,
            )[j] by {
                assert(c[q + j] == c.subrange(q, q + sb.len() + 6)[j]);
                assert(c.subrange(q, q + sb.len() + 6)[j] == sb[j]);
            }
        }
        lemma_line_of(c, q, l);
        if l.len() > 0 && l.last() == 13u8 {
            assert(sb[k - 1] == 13u8 && sb[k] == 10u8);
        }
        crate::unicode::lemma_valid_subrange(sb, 0, k + 1);
        assert(sb.subrange(0, k + 1) =~= l.push(10u8));
        assert(!starts_with(l, end_tag())) by {
            if starts_with(l, end_tag()) {
                assert(sb.subrange(0, 5) =~= l.subrange(0, 5));
                assert(occurs_at(sb, end_tag(), 0));
                assert(crate::writer::line_start(sb, 0));
            }
        }
        let rest = sb.subrange(k + 1, sb.len() as int);
        crate::unicode::lemma_valid_subrange(sb, k + 1, sb.len() as int);
        assert(no_end_line(rest)) by {
            assert forall|j: int| crate::writer::line_start(rest, j) implies !occurs_at(
                rest,
                end_tag(),
                j,
            ) by {
                if j > 0 {
                    assert(rest[j - 1] == sb[k + j]);
                }
                assert(crate::writer::line_start(sb, k + 1 + j));
                if occurs_at(rest, end_tag(), j) {
                    assert(sb.subrange(k + 1 + j, k + 1 + j + 5) =~= rest.subrange(j, j + 5));
                }
            }
        }
        assert(crlf_free(rest)) by {
            assert forall|i: int| 0 <= i < rest.len() - 1 implies !(#[trigger] rest[i] == 13u8
                && rest[i + 1] == 10u8) by {
                assert(rest[i] == sb[k + 1 + i]);
                assert(rest[i + 1] == sb[k + 2 + i]);
            }
        }
        if rest.len() > 0 {
            assert(rest.last() == sb.last());
        }
        assert(c.subrange(q + k + 1, q + k + 1 + rest.len() + 6) =~= rest + end_tag() + seq![10u8])
            by {
            assert forall|j: int| 0 <= j < rest.len() + 6 implies c.subrange(
                q + k + 1,
                q + k + 1 + rest.len() + 6,
            )[j] == (rest + end_tag() + seq![10u8])[j] by {
                assert(c[q + k + 1 + j] == c.subrange(q, q + sb.len() + 6)[k + 1 + j]);
            }
        }
        lemma_read_body_lines(c, q + k + 1, rest, acc + l + seq![10u8]);
        assert(acc + l + seq![10u8] + rest =~= acc + sb);
    }
}

/// Reading the section whose block starts at `p` gives its stored body, when the name and the
/// tier are tokens and no body line starts `%%END`.
#[verifier::rlimit(30)]
pub proof fn lemma_read_section(
    c: Seq<u8>,
    p: int,
    name: Seq<u8>,
    tier: Seq<u8>,
    version: u32,
    body: Seq<u8>,
)
    requires
        0 <= p,
        token_ok(name),
        token_ok(tier),
        valid_utf8(body),
        no_end_line(stored_body(body)),
        crlf_free(stored_body(body)),
        p + section_block(name, tier, version, body).len() <= c.len(),
        c.subrange(p, p + section_block(name, tier, version, body).len()) == section_block(
            name,
            tier,
            version,
            body,
        ),
    ensures
        read_at(c, p as nat, name) == ReadOutcome::Body(stored_body(body)),
{
    let blk = section_block(name, tier, version, body);
    let ml = marker_line(name, tier, version);
    let sb = stored_body(body);
    lemma_block_shape(name, tier, version, body);
    lemma_marker_line_text(name, tier, version);
    assert(c.subrange(p, p + ml.len() + 1) =~= ml.push(10u8)) by {
        assert forall|j: int| 0 <= j < ml.len() + 1 implies c.subrange(p, p + ml.len() + 1)[j]
            == ml.push(10u8)[j] by {
            assert(c[p + j] == c.subrange(p, p + blk.len())[j]);
        }
    }
    lemma_line_of(c, p, ml);
    assert(crate::layout::names_marker(ml.push(10u8), name)) by {
        assert(ml.push(10u8) =~= (mark_tag() + name) + (seq![32u8] + tier + seq![32u8]
            + crate::layout::version_tag() + decimal(version as nat) + seq![10u8]));
        assert(ml.push(10u8)[3 + name.len() as int] == 32u8);
        assert(ml.push(10u8).subrange(0, 3 + name.len() as int) =~= mark_tag() + name);
    }
    let q = p + ml.len() + 1;
    assert(c.subrange(q, q + sb.len() + 6) =~= sb + end_tag() + seq![10u8]) by {
        assert forall|j: int| 0 <= j < sb.len() + 6 implies c.subrange(q, q + sb.len() + 6)[j] == (
        sb + end_tag() + seq![10u8])[j] by {
            assert(c[q + j] == c.subrange(p, p + blk.len())[ml.len() + 1 + j]);
        }
    }
    if !(body.len() > 0 && body.last() == 10u8) {
        crate::date::lemma_ascii_valid(seq![10u8]);
        valid_utf8_concat(body, seq![10u8]);
        assert(body.push(10u8) =~= body + seq![10u8]);
        assert(sb.last() == 10u8);
    }
    lemma_read_body_lines(c, q, sb, seq![]);
    assert(Seq::<u8>::empty() + sb =~= sb);
}

/// Reading the section whose block starts at `p` gives its stored body.
pub proof fn lemma_read_block(c: Seq<u8>, p: int, b: Block)
    requires
        0 <= p,
        block_ok(b),
        crlf_free(stored_body(b.body)),
        p + section_block(b.name, b.tier, b.version, b.body).len() <= c.len(),
        c.subrange(p, p + section_block(b.name, b.tier, b.version, b.body).len()) == section_block(
            b.name,
            b.tier,
            b.version,
            b.body,
        ),
    ensures
        read_at(c, p as nat, b.name) == ReadOutcome::Body(stored_body(b.body)),
{
    crate::canonical::lemma_stored_free(b.body, end_tag());
    assert(no_end_line(stored_body(b.body)));
    lemma_read_section(c, p, b.name, b.tier, b.version, b.body);
}

} // verus!
