//! Reading back an index block the store wrote.
use vstd::prelude::*;
use vstd::utf8::valid_utf8;
use crate::bytes::{find_from, lemma_find_from_skip, occurs_at, starts_with};
use crate::canonical::{entries_fit, head_ok, row_field, row_name};
use crate::layout::{
    index_close_tag, index_line_fields, index_of, index_open_tag, line_next, line_text,
    scan_index_from, SectionView,
};
use crate::numbers::{
    all_digits, decimal, digits_value, is_digit, lemma_decimal_digits, lemma_decimal_value,
    lemma_zero_pad_value, parse_unsigned, zero_pad,
};
use crate::seq_facts::{lacks, lacks_from, lemma_find_here, lemma_find_skip_prefix};
use crate::writer::{index_block, index_row, index_rows, MarkerEntry};

verus! {

/// The row the index gives back for a marker entry, offsets relative to `base`.
pub open spec fn entry_view(e: MarkerEntry, base: nat) -> SectionView {
    SectionView { name: e.name, tier: e.tier, version: e.version, offset: (base + e.pos) as u64 }
}

pub open spec fn entry_views(es: Seq<MarkerEntry>, base: nat) -> Seq<SectionView> {
    es.map_values(|e: MarkerEntry| entry_view(e, base))
}

/// Every offset `base + pos` fits a `u64`.
pub open spec fn offsets_fit(es: Seq<MarkerEntry>, base: nat) -> bool {
    forall|i: int| 0 <= i < es.len() ==> #[trigger] es[i].pos + base <= u64::MAX
}

/// The line at `p` is `l` followed by a line break.
pub proof fn lemma_line_of(c: Seq<u8>, p: int, l: Seq<u8>)
    requires
        0 <= p,
        p + l.len() + 1 <= c.len(),
        c.subrange(p, p + l.len() + 1) == l.push(10u8),
        lacks(l, 10u8),
    ensures
        line_next(c, p) == p + l.len() + 1,
        line_text(c, p) == (if l.len() > 0 && l.last() == 13u8 {
            l.drop_last()
        } else {
            l
        }),
        c.subrange(p, line_next(c, p)) == l.push(10u8),
{
    let q = p + l.len();
    assert forall|j: int| p <= j < q implies !occurs_at(c, seq![10u8], j) by {
        assert(c[j] == l.push(10u8)[j - p]);
        assert(c.subrange(j, j + 1)[0] == c[j]);
    }
    assert(c[q] == l.push(10u8)[l.len() as int]);
    assert(c.subrange(q, q + 1) =~= seq![10u8]);
    lemma_find_from_skip(c, seq![10u8], p, q);
    if l.len() > 0 && l.last() == 13u8 {
        assert(c[q - 1] == l.push(10u8)[l.len() - 1]);
        assert(c.subrange(p, q - 1) =~= l.drop_last());
    } else {
        if q > p {
            assert(c[q - 1] == l.push(10u8)[l.len() - 1]);
        }
        assert(c.subrange(p, q) =~= l);
    }
}

/// The index rows, front first.
pub proof fn lemma_rows_front(e: MarkerEntry, rest: Seq<MarkerEntry>, base: nat)
    ensures
        index_rows(seq![e] + rest, base) == index_row(e, base) + index_rows(rest, base),
    decreases rest.len(),
{
    let s = seq![e] + rest;
    if rest.len() == 0 {
        assert(s.drop_last() =~= Seq::<MarkerEntry>::empty());
        assert(s.last() == e);
        assert(index_rows(s.drop_last(), base) =~= Seq::<u8>::empty());
        assert(index_rows(s, base) == index_rows(s.drop_last(), base) + index_row(s.last(), base));
        assert(index_rows(rest, base) =~= Seq::<u8>::empty());
        assert(index_row(e, base) + Seq::<u8>::empty() =~= index_row(e, base));
        assert(Seq::<u8>::empty() + index_row(e, base) =~= index_row(e, base));
    } else {
        assert(s.drop_last() =~= seq![e] + rest.drop_last());
        lemma_rows_front(e, rest.drop_last(), base);
        assert(s.last() == rest.last());
        assert(index_rows(s, base) =~= index_row(e, base) + index_rows(rest, base));
    }
}

/// A padded offset reads back as its value.
pub proof fn lemma_padded_parses(n: nat)
    requires
        n <= u64::MAX,
    ensures
        parse_unsigned(zero_pad(decimal(n), 10), u64::MAX as nat) == Some(n),
{
    lemma_decimal_digits(n);
    lemma_decimal_value(n);
    lemma_zero_pad_value(decimal(n), 10);
    let z = zero_pad(decimal(n), 10);
    assert(is_digit(z[0]));
}

/// `x:y:v<d>:<z>` splits into its fields.
proof fn lemma_fields_of(x: Seq<u8>, y: Seq<u8>, d: Seq<u8>, z: Seq<u8>)
    requires
        lacks(x, 58u8),
        lacks(y, 58u8),
        all_digits(d),
        d.len() > 0,
    ensures
        ({
            let t = x + seq![58u8] + y + seq![58u8, 118u8] + d + seq![58u8] + z;
            let i1 = x.len() as int;
            let i2 = i1 + 1 + y.len();
            let i3 = i2 + 2 + d.len();
            &&& find_from(t, seq![58u8], 0) == Some(i1)
            &&& find_from(t, seq![58u8], i1 + 1) == Some(i2)
            &&& find_from(t, seq![58u8], i2 + 1) == Some(i3)
            &&& t.subrange(0, i1) == x
            &&& t.subrange(i1 + 1, i2) == y
            &&& t.subrange(i2 + 1, i3) == seq![118u8] + d
            &&& t.subrange(i3 + 1, t.len() as int) == z
        }),
{
    let colon = seq![58u8];
    let t = x + seq![58u8] + y + seq![58u8, 118u8] + d + seq![58u8] + z;
    let i1 = x.len() as int;
    let i2 = i1 + 1 + y.len();
    let i3 = i2 + 2 + d.len();
    let r1 = seq![58u8] + y + seq![58u8, 118u8] + d + seq![58u8] + z;
    assert(t =~= x + r1);
    assert(r1.subrange(0, 1) =~= colon);
    lemma_find_here(r1, colon, 0);
    lemma_find_skip_prefix(x, r1, colon, 0);
    let a2 = x + seq![58u8] + y;
    let r2 = seq![58u8, 118u8] + d + seq![58u8] + z;
    assert(t =~= a2 + r2);
    assert(lacks_from(a2, 58u8, i1 + 1)) by {
        assert forall|j: int| i1 + 1 <= j < a2.len() implies a2[j] != 58u8 by {
            assert(a2[j] == y[j - i1 - 1]);
        }
    }
    assert(r2.subrange(0, 1) =~= colon);
    lemma_find_here(r2, colon, 0);
    lemma_find_skip_prefix(a2, r2, colon, i1 + 1);
    let a3 = x + seq![58u8] + y + seq![58u8, 118u8] + d;
    let r3 = seq![58u8] + z;
    assert(t =~= a3 + r3);
    assert(lacks_from(a3, 58u8, i2 + 1)) by {
        assert forall|j: int| i2 + 1 <= j < a3.len() implies a3[j] != 58u8 by {
            if j > i2 + 1 {
                assert(a3[j] == d[j - i2 - 2]);
                assert(is_digit(d[j - i2 - 2]));
            }
        }
    }
    assert(r3.subrange(0, 1) =~= colon);
    lemma_find_here(r3, colon, 0);
    lemma_find_skip_prefix(a3, r3, colon, i2 + 1);
    assert(t.subrange(0, i1) =~= x);
    assert(t.subrange(i1 + 1, i2) =~= y);
    assert(t.subrange(i2 + 1, i3) =~= seq![118u8] + d);
    assert(t.subrange(i3 + 1, t.len() as int) =~= z);
}

/// An index row's text reads back as the entry's row.
pub proof fn lemma_row_fields(e: MarkerEntry, base: nat)
    requires
        row_field(e.name),
        row_field(e.tier),
        e.pos >= 0,
        e.pos + base <= u64::MAX,
    ensures
        index_line_fields(index_row(e, base).drop_last()) == Some(entry_view(e, base)),
{
    let d = decimal(e.version as nat);
    let z = zero_pad(decimal((base + e.pos) as nat), 10);
    let t = index_row(e, base).drop_last();
    lemma_decimal_digits(e.version as nat);
    lemma_decimal_value(e.version as nat);
    lemma_padded_parses((base + e.pos) as nat);
    assert(t =~= e.name + seq![58u8] + e.tier + seq![58u8, 118u8] + d + seq![58u8] + z);
    lemma_fields_of(e.name, e.tier, d, z);
    let vf = seq![118u8] + d;
    assert(vf.subrange(1, vf.len() as int) =~= d);
    assert(is_digit(d[0]));
}

/// An index row is valid UTF-8 and ends with its only line break.
#[verifier::rlimit(30)]
pub proof fn lemma_row_text(e: MarkerEntry, base: nat)
    requires
        row_field(e.name),
        row_field(e.tier),
    ensures
        valid_utf8(index_row(e, base)),
        index_row(e, base).last() == 10u8,
        lacks(index_row(e, base).drop_last(), 10u8),
{
    let r = index_row(e, base);
    let d = decimal(e.version as nat);
    let z = zero_pad(decimal((base + e.pos) as nat), 10);
    lemma_decimal_digits(e.version as nat);
    lemma_decimal_digits((base + e.pos) as nat);
    lemma_zero_pad_value(decimal((base + e.pos) as nat), 10);
    let n = e.name.len() as int;
    let m = e.tier.len() as int;
    let tail = seq![58u8, 118u8] + d + seq![58u8] + z + seq![10u8];
    assert(r =~= e.name + seq![58u8] + e.tier + tail);
    assert forall|j: int| 0 <= j < tail.len() implies tail[j] < 128 && (j < tail.len() - 1
        ==> tail[j] != 10u8) by {
        if j < 2 {
        } else if j < 2 + d.len() {
            assert(tail[j] == d[j - 2]);
            assert(is_digit(d[j - 2]));
        } else if j == 2 + d.len() {
        } else if j < 3 + d.len() + z.len() {
            assert(tail[j] == z[j - 3 - d.len()]);
            assert(is_digit(z[j - 3 - d.len()]));
        } else {
        }
    }
    crate::date::lemma_ascii_valid(tail);
    crate::date::lemma_ascii_valid(seq![58u8]);
    vstd::utf8::valid_utf8_concat(e.name, seq![58u8]);
    vstd::utf8::valid_utf8_concat(e.name + seq![58u8], e.tier);
    vstd::utf8::valid_utf8_concat(e.name + seq![58u8] + e.tier, tail);
    assert forall|j: int| 0 <= j < r.len() - 1 implies r.drop_last()[j] != 10u8 by {
        if j < n {
            assert(r[j] == e.name[j]);
        } else if j == n {
        } else if j < n + 1 + m {
            assert(r[j] == e.tier[j - n - 1]);
        } else {
            assert(r[j] == tail[j - n - 1 - m]);
        }
    }
}

/// The line of one index row: its extent, its text, and its fields.
#[verifier::rlimit(30)]
proof fn lemma_row_line(c: Seq<u8>, p: int, e: MarkerEntry, base: nat)
    requires
        0 <= p,
        row_name(e.name),
        row_field(e.tier),
        e.pos >= 0,
        e.pos + base <= u64::MAX,
        p + index_row(e, base).len() <= c.len(),
        c.subrange(p, p + index_row(e, base).len()) == index_row(e, base),
    ensures
        line_next(c, p) == p + index_row(e, base).len(),
        line_text(c, p) == index_row(e, base).drop_last(),
        valid_utf8(c.subrange(p, line_next(c, p))),
        !starts_with(line_text(c, p), index_open_tag()),
        !starts_with(line_text(c, p), index_close_tag()),
        index_line_fields(line_text(c, p)) == Some(entry_view(e, base)),
{
    let r = index_row(e, base);
    lemma_row_text(e, base);
    let l = r.drop_last();
    assert(r =~= l.push(10u8));
    lemma_line_of(c, p, l);
    let z = zero_pad(decimal((base + e.pos) as nat), 10);
    lemma_decimal_digits((base + e.pos) as nat);
    lemma_zero_pad_value(decimal((base + e.pos) as nat), 10);
    assert(l =~= e.name + seq![58u8] + e.tier + seq![58u8, 118u8] + decimal(e.version as nat)
        + seq![58u8] + z);
    assert(l.last() == z.last());
    assert(is_digit(z[z.len() - 1]));
    lemma_row_fields(e, base);
    let n = e.name.len() as int;
    assert(l[n] == 58u8);
    assert(!starts_with(l, index_open_tag())) by {
        if starts_with(l, index_open_tag()) {
            if n >= 7 {
                assert(e.name.subrange(0, 7) =~= l.subrange(0, 7));
            } else {
                assert(l.subrange(0, 7)[n] == l[n]);
            }
        }
    }
    assert(!starts_with(l, index_close_tag())) by {
        if starts_with(l, index_close_tag()) {
            if n >= 11 {
                assert(e.name.subrange(0, 11) =~= l.subrange(0, 11));
            } else {
                assert(l.subrange(0, 11)[n] == l[n]);
            }
        }
    }
}

/// Scanning the rows of an index block gives back their entries; the scan ends at the
/// closing line.
#[verifier::spinoff_prover]
#[verifier::rlimit(50)]
pub proof fn lemma_scan_rows(
    c: Seq<u8>,
    p: int,
    es: Seq<MarkerEntry>,
    base: nat,
    acc: Seq<SectionView>,
)
    requires
        0 <= p,
        entries_fit(es),
        offsets_fit(es, base),
        p + index_rows(es, base).len() + 12 <= c.len(),
        c.subrange(p, p + index_rows(es, base).len() + 12) == index_rows(es, base)
            + index_close_tag() + seq![10u8],
    ensures
        scan_index_from(c, p, true, acc) == (acc + entry_views(es, base), true),
    decreases es.len(),
{
    if es.len() == 0 {
        let l = index_close_tag();
        assert(index_rows(es, base) =~= Seq::<u8>::empty());
        assert(c.subrange(p, p + 12) =~= l.push(10u8));
        assert(lacks(l, 10u8));
        lemma_line_of(c, p, l);
        crate::date::lemma_ascii_valid(l.push(10u8));
        assert(!starts_with(l, index_open_tag())) by {
            assert(l.subrange(0, 7)[2] != index_open_tag()[2]);
        }
        assert(l.subrange(0, 11) =~= l);
        assert(entry_views(es, base) =~= Seq::<SectionView>::empty());
        assert(acc + entry_views(es, base) =~= acc);
    } else {
        let e = es[0];
        let rest = es.drop_first();
        assert(es =~= seq![e] + rest);
        lemma_rows_front(e, rest, base);
        assert(es[0] == e);
        assert(row_name(e.name) && row_field(e.tier) && e.pos >= 0);
        assert(e.pos + base <= u64::MAX);
        let r = index_row(e, base);
        assert(c.subrange(p, p + r.len()) =~= r) by {
            assert forall|j: int| 0 <= j < r.len() implies c.subrange(p, p + r.len())[j] == r[j] by {
                assert(c[p + j] == c.subrange(p, p + index_rows(es, base).len() + 12)[j]);
            }
        }
        lemma_row_line(c, p, e, base);
        assert(entries_fit(rest)) by {
            assert forall|i: int| 0 <= i < rest.len() implies row_name((#[trigger] rest[i]).name)
                && row_field(rest[i].tier) && rest[i].pos >= 0 by {
                assert(rest[i] == es[i + 1]);
            }
        }
        assert(offsets_fit(rest, base)) by {
            assert forall|i: int| 0 <= i < rest.len() implies #[trigger] rest[i].pos + base
                <= u64::MAX by {
                assert(rest[i] == es[i + 1]);
            }
        }
        let q = p + r.len();
        assert(c.subrange(q, q + index_rows(rest, base).len() + 12) =~= index_rows(rest, base)
            + index_close_tag() + seq![10u8]) by {
            let big = c.subrange(p, p + index_rows(es, base).len() + 12);
            assert forall|j: int| 0 <= j < index_rows(rest, base).len() + 12 implies c.subrange(
                q,
                q + index_rows(rest, base).len() + 12,
            )[j] == (index_rows(rest, base) + index_close_tag() + seq![10u8])[j] by {
                assert(c[q + j] == big[r.len() + j]);
            }
        }
        lemma_scan_rows(c, q, rest, base, acc.push(entry_view(e, base)));
        assert(acc.push(entry_view(e, base)) + entry_views(rest, base) =~= acc + entry_views(es, base));
    }
}

/// The index read back from a file made of a header, an index block and anything after it is
/// the block's entries.
#[verifier::spinoff_prover]
#[verifier::rlimit(50)]
pub proof fn lemma_index_of_block(h: Seq<u8>, es: Seq<MarkerEntry>, base: nat, rest: Seq<u8>)
    requires
        head_ok(h),
        entries_fit(es),
        offsets_fit(es, base),
    ensures
        index_of(h + index_block(es, base) + rest) == (entry_views(es, base), true),
{
    let c = h + index_block(es, base) + rest;
    let rows = index_rows(es, base);
    let hl = h.len() as int;
    // the header lines
    assert(c.subrange(0, hl) =~= h);
    lemma_header_lines(c, h, 0);
    // the opening line
    let l1 = index_open_tag();
    assert(c.subrange(hl, hl + 8) =~= l1.push(10u8));
    lemma_line_of(c, hl, l1);
    crate::date::lemma_ascii_valid(l1.push(10u8));
    assert(l1.subrange(0, 7) =~= l1);
    assert(scan_index_from(c, hl, false, seq![]) == scan_index_from(c, hl + 8, true, seq![]));
    // the rows and the closing line
    assert(c.subrange(hl + 8, hl + 8 + rows.len() + 12) =~= rows + index_close_tag() + seq![10u8]);
    lemma_scan_rows(c, hl + 8, es, base, seq![]);
    assert(Seq::<SectionView>::empty() + entry_views(es, base) =~= entry_views(es, base));
}

/// The header's lines add no rows and read as text.
#[verifier::rlimit(30)]
proof fn lemma_header_lines(c: Seq<u8>, h: Seq<u8>, pos: int)
    requires
        head_ok(h),
        h.len() <= c.len(),
        c.subrange(0, h.len() as int) == h,
        0 <= pos <= h.len(),
        pos == 0 || h[pos - 1] == 10u8,
    ensures
        scan_index_from(c, pos, false, seq![]) == scan_index_from(c, h.len() as int, false, seq![]),
    decreases h.len() - pos,
{
    if pos < h.len() {
        let hl = h.len() as int;
        crate::layout::lemma_line(c, pos);
        crate::bytes::lemma_find_from(c, seq![10u8], pos);
        assert(c[hl - 1] == h[hl - 1]);
        assert(c.subrange(hl - 1, hl) =~= seq![10u8]);
        assert(occurs_at(c, seq![10u8], hl - 1));
        let k = find_from(c, seq![10u8], pos)->0;
        assert(k <= hl - 1);
        let next = line_next(c, pos);
        assert(next == k + 1);
        assert(h[k] == c[k]);
        assert(c.subrange(k, k + 1)[0] == c[k]);
        assert(crate::unicode::ascii_edge(h, next));
        crate::unicode::lemma_valid_subrange(h, pos, next);
        assert(c.subrange(pos, next) =~= h.subrange(pos, next));
        let t = line_text(c, pos);
        assert(crate::writer::line_start(h, pos));
        assert(!starts_with(t, index_open_tag())) by {
            if starts_with(t, index_open_tag()) {
                assert(h.subrange(pos, pos + 7) =~= t.subrange(0, 7));
                assert(occurs_at(h, index_open_tag(), pos));
            }
        }
        assert(!starts_with(t, index_close_tag())) by {
            if starts_with(t, index_close_tag()) {
                assert(h.subrange(pos, pos + 11) =~= t.subrange(0, 11));
                assert(occurs_at(h, index_close_tag(), pos));
            }
        }
        lemma_header_lines(c, h, next);
    }
}

} // verus!
