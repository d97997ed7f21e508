//! Text in, text out: writing a section of a text file, or rebuilding its index, gives text
//! again, so the index of the result always reads back.
use vstd::prelude::*;
use vstd::utf8::*;
use crate::bytes::{find_from, lemma_find_from, lemma_skip_newlines, newline_or_end, occurs_at, skip_newlines, starts_with};
use crate::date::lemma_ascii_valid;
use crate::layout::{
    durable_tag, end_tag, index_close_tag, index_of, index_open_tag, lemma_line, line_next,
    mark_tag, scan_index_from, version_tag, SectionView,
};
use crate::numbers::{all_digits, decimal, lemma_decimal_digits, lemma_zero_pad_value, zero_pad};
use crate::unicode::{
    ascii_edge, lemma_ascii_edge_boundary, lemma_skip_ws, lemma_skip_ws_boundary, lemma_token_end,
    lemma_valid_between, lemma_valid_subrange, lemma_ws_start, next_token, skip_ws, token_end,
    ws_len,
};
use crate::writer::{
    header_and_body, index_block, index_row, index_rows, marker_fields, rebuilt, scan_markers,
    section_block, section_end, write_defined, written, MarkerEntry,
};

verus! {

broadcast use valid_utf8_concat;

/// Bytes below 128.
pub open spec fn ascii(b: Seq<u8>) -> bool {
    forall|i: int| 0 <= i < b.len() ==> b[i] < 128
}

proof fn lemma_digits_ascii(d: Seq<u8>)
    requires
        all_digits(d),
    ensures
        valid_utf8(d),
{
    assert forall|i: int| 0 <= i < d.len() implies d[i] < 128 by {
        assert(crate::numbers::is_digit(d[i]));
    }
    lemma_ascii_valid(d);
}

proof fn lemma_ascii_text(b: Seq<u8>)
    requires
        ascii(b),
    ensures
        valid_utf8(b),
{
    lemma_ascii_valid(b);
}

// ---- reading the index of text ---------------------------------------------------------

proof fn lemma_scan_valid(c: Seq<u8>, pos: int, in_index: bool, acc: Seq<SectionView>)
    requires
        valid_utf8(c),
        0 <= pos,
        pos >= c.len() || pos == 0 || c[pos - 1] == 10u8,
    ensures
        scan_index_from(c, pos, in_index, acc).1,
    decreases c.len() - pos,
{
    if pos < c.len() {
        lemma_line(c, pos);
        let next = line_next(c, pos);
        lemma_valid_subrange(c, pos, next);
        let line = crate::layout::line_text(c, pos);
        if starts_with(line, index_open_tag()) {
            lemma_scan_valid(c, next, true, acc);
        } else if starts_with(line, index_close_tag()) {
        } else if in_index && crate::layout::index_line_fields(line) is Some {
            lemma_scan_valid(c, next, in_index, acc.push(crate::layout::index_line_fields(line)->0));
        } else {
            lemma_scan_valid(c, next, in_index, acc);
        }
    }
}

/// Every line of text is text, so reading the index of text always succeeds.
pub proof fn lemma_index_of_text(c: Seq<u8>)
    requires
        valid_utf8(c),
    ensures
        index_of(c).1,
{
    lemma_scan_valid(c, 0, false, seq![]);
}

// ---- section blocks --------------------------------------------------------------------

/// A section block made of text is text.
#[verifier::rlimit(30)]
pub proof fn lemma_block_text(name: Seq<u8>, tier: Seq<u8>, version: u32, body: Seq<u8>)
    requires
        valid_utf8(name),
        valid_utf8(tier),
        valid_utf8(body),
    ensures
        valid_utf8(section_block(name, tier, version, body)),
{
    lemma_decimal_digits(version as nat);
    lemma_digits_ascii(decimal(version as nat));
    lemma_ascii_text(mark_tag());
    lemma_ascii_text(seq![32u8]);
    lemma_ascii_text(seq![10u8]);
    lemma_ascii_text(version_tag());
    lemma_ascii_text(end_tag());
    let stored = if body.len() > 0 && body.last() == 10u8 {
        body
    } else {
        body.push(10u8)
    };
    assert(body.push(10u8) =~= body + seq![10u8]);
    assert(valid_utf8(stored));
    assert(valid_utf8(mark_tag() + name));
    assert(valid_utf8(mark_tag() + name + seq![32u8]));
    assert(valid_utf8(mark_tag() + name + seq![32u8] + tier));
    assert(valid_utf8(mark_tag() + name + seq![32u8] + tier + seq![32u8]));
    assert(valid_utf8(mark_tag() + name + seq![32u8] + tier + seq![32u8] + version_tag()));
    assert(valid_utf8(
        mark_tag() + name + seq![32u8] + tier + seq![32u8] + version_tag() + decimal(version as nat),
    ));
    assert(valid_utf8(
        mark_tag() + name + seq![32u8] + tier + seq![32u8] + version_tag() + decimal(version as nat)
            + seq![10u8],
    ));
    assert(valid_utf8(
        mark_tag() + name + seq![32u8] + tier + seq![32u8] + version_tag() + decimal(version as nat)
            + seq![10u8] + stored,
    ));
    assert(valid_utf8(
        mark_tag() + name + seq![32u8] + tier + seq![32u8] + version_tag() + decimal(version as nat)
            + seq![10u8] + stored + end_tag(),
    ));
}

/// Writing a text section into text gives text.
#[verifier::rlimit(30)]
pub proof fn lemma_written_text(c: Seq<u8>, name: Seq<u8>, tier: Seq<u8>, body: Seq<u8>)
    requires
        valid_utf8(c),
        valid_utf8(name),
        valid_utf8(tier),
        valid_utf8(body),
        write_defined(c, name),
    ensures
        valid_utf8(written(c, name, tier, body)),
{
    lemma_ascii_text(seq![10u8]);
    lemma_block_text(name, tier, 1, body);
    let mp = mark_tag() + name;
    crate::writer::lemma_marker_from(c, name, 0);
    match crate::writer::marker_pos(c, name) {
        Some(start) => {
            let v = crate::writer::marker_version(c.subrange(start, c.len() as int));
            lemma_block_text(name, tier, (v + 1) as u32, body);
            assert(c.subrange(start, start + mp.len())[0] == c[start]);
            lemma_valid_subrange(c, 0, start);
            lemma_find_from(c, end_tag(), start);
            let k = find_from(c, end_tag(), start)->0;
            assert(c.subrange(k, k + 5)[4] == c[k + 4]);
            lemma_skip_newlines(c, k + 5);
            let e = section_end(c, start);
            assert(ascii_edge(c, e)) by {
                if e < c.len() && e > 0 {
                    if e == k + 5 {
                        assert(c[e - 1] == 68u8);
                    } else {
                        assert(c[e - 1] == 10u8 || c[e - 1] == 13u8);
                    }
                }
            }
            lemma_valid_subrange(c, e, c.len() as int);
            let blk = section_block(name, tier, (v + 1) as u32, body);
            assert(valid_utf8(c.subrange(0, start) + blk));
            assert(valid_utf8(c.subrange(0, start) + blk + c.subrange(e, c.len() as int)));
        },
        None => {
            assert(valid_utf8(c + seq![10u8]));
            assert(valid_utf8(c + seq![10u8] + section_block(name, tier, 1, body)));
        },
    }
}

// ---- the index rebuild ---------------------------------------------------------------------

/// The token of `t` from `i` ends where whitespace starts, or at the end.
proof fn lemma_token_stop(t: Seq<u8>, i: int)
    requires
        0 <= i <= t.len(),
    ensures
        token_end(t, i) == t.len() || ws_len(t, token_end(t, i)) > 0,
    decreases t.len() - i,
{
    if i < t.len() && ws_len(t, i) == 0 {
        lemma_token_stop(t, i + 1);
    }
}

/// A token of text, found from a position that starts a character, is text.
proof fn lemma_token_text(t: Seq<u8>, i: int)
    requires
        valid_utf8(t),
        0 <= i <= t.len(),
        i == t.len() || !is_continuation_byte(t[i]),
    ensures
        next_token(t, i) matches Some((s, e)) ==> valid_utf8(t.subrange(s, e)) && (e == t.len()
            || !is_continuation_byte(t[e])),
{
    lemma_skip_ws(t, i);
    lemma_skip_ws_boundary(t, i);
    let s = skip_ws(t, i);
    if s < t.len() {
        lemma_token_end(t, s);
        lemma_token_stop(t, s);
        let e = token_end(t, s);
        if e < t.len() {
            lemma_ws_start(t, e);
        }
        lemma_valid_between(t, s, e);
    }
}

/// The name and tier of a marker line of text are text.
proof fn lemma_marker_text(t: Seq<u8>)
    requires
        valid_utf8(t),
        starts_with(t, mark_tag()),
    ensures
        marker_fields(t) matches Some((n, tr, v)) ==> valid_utf8(n) && valid_utf8(tr),
{
    assert(t.subrange(0, 3)[2] == t[2]);
    lemma_ascii_edge_boundary(t, 3);
    if 3 < t.len() {
        is_char_boundary_iff_not_is_continuation_byte(t, 3);
    }
    lemma_token_text(t, 3);
    if let Some((s1, e1)) = next_token(t, 3) {
        crate::unicode::lemma_next_token(t, 3);
        lemma_token_text(t, e1);
        lemma_ascii_text(durable_tag());
    }
}

/// The names and tiers that the rebuild finds in text are text.
#[verifier::rlimit(30)]
proof fn lemma_markers_text(body: Seq<u8>, from: int)
    requires
        valid_utf8(body),
        0 <= from,
    ensures
        forall|i: int|
            0 <= i < scan_markers(body, from).len() ==> valid_utf8(
                (#[trigger] scan_markers(body, from)[i]).name,
            ) && valid_utf8(scan_markers(body, from)[i].tier),
    decreases body.len() - from,
{
    lemma_find_from(body, mark_tag(), from);
    match find_from(body, mark_tag(), from) {
        None => {},
        Some(pos) => {
            if !(pos < from || pos + 3 > body.len() || from < 0) && !crate::writer::line_start(body, pos) {
                lemma_markers_text(body, pos + 3);
            } else if !(pos < from || pos + 3 > body.len() || from < 0) {
                lemma_markers_text(body, pos + 3);
                let le = newline_or_end(body, pos);
                lemma_find_from(body, seq![10u8], pos);
                assert(body.subrange(pos, pos + 3)[0] == body[pos]);
                assert(body.subrange(pos, pos + 3)[1] == body[pos + 1]);
                assert(body.subrange(pos, pos + 3)[2] == body[pos + 2]);
                assert(le >= pos + 3) by {
                    if le < pos + 3 {
                        assert(body.subrange(le, le + 1)[0] == body[le]);
                    }
                }
                assert(ascii_edge(body, le)) by {
                    if le < body.len() {
                        assert(body.subrange(le, le + 1)[0] == body[le]);
                    }
                }
                lemma_valid_subrange(body, pos, le);
                let t = body.subrange(pos, le);
                assert(t.subrange(0, 3) =~= body.subrange(pos, pos + 3));
                lemma_marker_text(t);
                let rest = scan_markers(body, pos + 3);
                match marker_fields(t) {
                    Some((n, tr, v)) => {
                        let e = MarkerEntry { name: n, tier: tr, version: v, pos: pos };
                        assert(scan_markers(body, from) == seq![e] + rest);
                        assert forall|i: int| 0 <= i < scan_markers(body, from).len() implies valid_utf8(
                            (#[trigger] scan_markers(body, from)[i]).name,
                        ) && valid_utf8(scan_markers(body, from)[i].tier) by {
                            if i > 0 {
                                assert(scan_markers(body, from)[i] == rest[i - 1]);
                            }
                        }
                    },
                    None => {},
                }
            }
        },
    }
}

/// The index rows of text entries are text.
#[verifier::rlimit(30)]
proof fn lemma_rows_text(es: Seq<MarkerEntry>, base: nat)
    requires
        forall|i: int| 0 <= i < es.len() ==> valid_utf8((#[trigger] es[i]).name) && valid_utf8(es[i].tier),
    ensures
        valid_utf8(index_rows(es, base)),
    decreases es.len(),
{
    if es.len() == 0 {
        lemma_ascii_text(Seq::<u8>::empty());
    } else {
        assert forall|i: int| 0 <= i < es.drop_last().len() implies valid_utf8(
            (#[trigger] es.drop_last()[i]).name,
        ) && valid_utf8(es.drop_last()[i].tier) by {
            assert(es.drop_last()[i] == es[i]);
        }
        lemma_rows_text(es.drop_last(), base);
        let e = es.last();
        assert(e == es[es.len() - 1]);
        lemma_decimal_digits(e.version as nat);
        lemma_digits_ascii(decimal(e.version as nat));
        let off = decimal((base + e.pos) as nat);
        lemma_decimal_digits((base + e.pos) as nat);
        lemma_zero_pad_value(off, 10);
        lemma_digits_ascii(zero_pad(off, 10));
        lemma_ascii_text(seq![58u8]);
        lemma_ascii_text(seq![58u8, 118u8]);
        lemma_ascii_text(seq![10u8]);
        assert(valid_utf8(e.name + seq![58u8]));
        assert(valid_utf8(e.name + seq![58u8] + e.tier));
        assert(valid_utf8(e.name + seq![58u8] + e.tier + seq![58u8, 118u8]));
        assert(valid_utf8(e.name + seq![58u8] + e.tier + seq![58u8, 118u8] + decimal(e.version as nat)));
        assert(valid_utf8(
            e.name + seq![58u8] + e.tier + seq![58u8, 118u8] + decimal(e.version as nat) + seq![58u8],
        ));
        assert(valid_utf8(
            e.name + seq![58u8] + e.tier + seq![58u8, 118u8] + decimal(e.version as nat) + seq![58u8]
                + zero_pad(off, 10),
        ));
        assert(valid_utf8(index_row(e, base)));
    }
}

/// The header and body the rebuild splits text into are text.
#[verifier::rlimit(30)]
proof fn lemma_header_body_text(c: Seq<u8>)
    requires
        valid_utf8(c),
    ensures
        valid_utf8(header_and_body(c).0),
        valid_utf8(header_and_body(c).1),
{
    lemma_find_from(c, index_open_tag(), 0);
    lemma_find_from(c, index_close_tag(), 0);
    lemma_find_from(c, seq![10u8], 0);
    match (find_from(c, index_open_tag(), 0), find_from(c, index_close_tag(), 0)) {
        (Some(s), Some(e)) => {
            assert(c.subrange(s, s + 7)[0] == c[s]);
            lemma_valid_subrange(c, 0, s);
            assert(c.subrange(e, e + 11)[10] == c[e + 10]);
            lemma_skip_newlines(c, e + 11);
            let p = skip_newlines(c, e + 11);
            assert(ascii_edge(c, p)) by {
                if 0 < p < c.len() {
                    if p == e + 11 {
                        assert(c[p - 1] == 88u8);
                    } else {
                        assert(c[p - 1] == 10u8 || c[p - 1] == 13u8);
                    }
                }
            }
            lemma_valid_subrange(c, p, c.len() as int);
        },
        _ => {
            let split = match find_from(c, seq![10u8], 0) {
                Some(i) => i + 1,
                None => c.len() as int,
            };
            if let Some(i) = find_from(c, seq![10u8], 0) {
                assert(c.subrange(i, i + 1)[0] == c[i]);
            }
            lemma_valid_subrange(c, 0, split);
            lemma_valid_subrange(c, split, c.len() as int);
        },
    }
}

/// Rebuilding the index of text gives text.
pub proof fn lemma_rebuilt_text(c: Seq<u8>)
    requires
        valid_utf8(c),
    ensures
        valid_utf8(rebuilt(c)),
{
    lemma_header_body_text(c);
    let (header, body) = header_and_body(c);
    let es = scan_markers(body, 0);
    lemma_markers_text(body, 0);
    let base = (header.len() + index_block(es, 0).len()) as nat;
    lemma_rows_text(es, base);
    lemma_ascii_text(index_open_tag() + seq![10u8]);
    lemma_ascii_text(index_close_tag() + seq![10u8]);
    assert(index_block(es, base) =~= (index_open_tag() + seq![10u8]) + index_rows(es, base) + (
    index_close_tag() + seq![10u8]));
    assert(valid_utf8((index_open_tag() + seq![10u8]) + index_rows(es, base)));
    assert(valid_utf8((index_open_tag() + seq![10u8]) + index_rows(es, base) + (index_close_tag()
        + seq![10u8])));
    assert(valid_utf8(index_block(es, base)));
    assert(valid_utf8(header + index_block(es, base)));
    assert(valid_utf8(header + index_block(es, base) + body));
}

/// Writing a text section into text and rebuilding the index gives text whose index reads back.
pub proof fn lemma_write_reads_back(c: Seq<u8>, name: Seq<u8>, tier: Seq<u8>, body: Seq<u8>)
    requires
        valid_utf8(c),
        valid_utf8(name),
        valid_utf8(tier),
        valid_utf8(body),
        write_defined(c, name),
    ensures
        valid_utf8(rebuilt(written(c, name, tier, body))),
        index_of(rebuilt(written(c, name, tier, body))).1,
{
    lemma_written_text(c, name, tier, body);
    lemma_rebuilt_text(written(c, name, tier, body));
    lemma_index_of_text(rebuilt(written(c, name, tier, body)));
}

/// The text of blocks made of text is text.
proof fn lemma_blocks_text_valid(bs: Seq<crate::canonical::Block>)
    requires
        crate::canonical::blocks_ok(bs),
    ensures
        valid_utf8(crate::canonical::blocks_text(bs)),
    decreases bs.len(),
{
    if bs.len() == 0 {
        lemma_ascii_text(Seq::<u8>::empty());
    } else {
        let b = bs[0];
        assert(crate::canonical::block_ok(b));
        assert(crate::canonical::blocks_ok(bs.drop_first())) by {
            assert forall|i: int| 0 <= i < bs.drop_first().len() implies crate::canonical::block_ok(
                #[trigger] bs.drop_first()[i],
            ) by {
                assert(bs.drop_first()[i] == bs[i + 1]);
            }
        }
        lemma_blocks_text_valid(bs.drop_first());
        lemma_block_text(b.name, b.tier, b.version, b.body);
        lemma_ascii_text(crate::canonical::gap_text(b));
        assert(valid_utf8(crate::canonical::block_text(b)));
    }
}

/// A file the store writes from a header and blocks made of text is text.
pub proof fn lemma_file_text(h: Seq<u8>, bs: Seq<crate::canonical::Block>)
    requires
        crate::canonical::header_ok(h),
        crate::canonical::blocks_ok(bs),
    ensures
        valid_utf8(crate::canonical::file_of(h, bs)),
{
    let es = crate::canonical::block_entries(bs, 0);
    let base = (h.len() + index_block(es, 0).len()) as nat;
    crate::canonical::lemma_block_entries(bs, 0);
    assert forall|i: int| 0 <= i < es.len() implies valid_utf8((#[trigger] es[i]).name) && valid_utf8(
        es[i].tier,
    ) by {
        assert(crate::canonical::field_ok(es[i].name));
    }
    lemma_rows_text(es, base);
    lemma_ascii_text(index_open_tag() + seq![10u8]);
    lemma_ascii_text(index_close_tag() + seq![10u8]);
    assert(index_block(es, base) =~= (index_open_tag() + seq![10u8]) + index_rows(es, base) + (
    index_close_tag() + seq![10u8]));
    assert(valid_utf8((index_open_tag() + seq![10u8]) + index_rows(es, base)));
    assert(valid_utf8(index_block(es, base)));
    lemma_blocks_text_valid(bs);
    assert(valid_utf8(h + index_block(es, base)));
    assert(valid_utf8(h + index_block(es, base) + crate::canonical::blocks_text(bs)));
}

} // verus!
