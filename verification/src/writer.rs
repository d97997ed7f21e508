//! The write side of the layout: marker lines, section blocks, the index rebuild and the
//! update-or-append of one section.
use vstd::prelude::*;
use crate::bytes::{
    copy_range, find, find_from, lemma_find_from, line_end, newline_or_end, occurs_at,
    push_all, push_range, skip_newline_bytes, skip_newlines, starts_with,
};
use crate::layout::{
    durable_tag, end_tag, index_close_tag, index_open_tag, mark_tag, version_tag, has_prefix,
};
use crate::numbers::{
    decimal, parse_unsigned, parse_unsigned_range, push_decimal, push_decimal_padded, zero_pad,
};
use crate::unicode::{lemma_next_token, next_token, next_token_at, ws_len, ws_len_at};

verus! {

// ---- marker lines ------------------------------------------------------------------------

/// The version a `v:<N>` token gives: `N` when it parses as a `u32`, else 1.
pub open spec fn version_of_token(tok: Seq<u8>) -> u32 {
    if starts_with(tok, version_tag()) {
        match parse_unsigned(tok.subrange(2, tok.len() as int), u32::MAX as nat) {
            Some(v) => v as u32,
            None => 1,
        }
    } else {
        1
    }
}

/// The fields of a marker line `%%@<name> [<tier> [v:<N>]]`, split at whitespace: the name is
/// the first token after `%%@`; a missing tier is `!durable`; a missing or unparsable version
/// is 1.
pub open spec fn marker_fields(t: Seq<u8>) -> Option<(Seq<u8>, Seq<u8>, u32)> {
    if !starts_with(t, mark_tag()) {
        None
    } else {
        match next_token(t, 3) {
            None => None,
            Some((s1, e1)) => {
                let tok2 = next_token(t, e1);
                let tier = match tok2 {
                    Some((s2, e2)) => t.subrange(s2, e2),
                    None => durable_tag(),
                };
                let tok3 = match tok2 {
                    Some((s2, e2)) => next_token(t, e2),
                    None => None,
                };
                let version = match tok3 {
                    Some((s3, e3)) => if starts_with(t.subrange(s3, e3), version_tag()) {
                        version_of_token(t.subrange(s3, e3))
                    } else {
                        1
                    },
                    None => 1,
                };
                Some((t.subrange(s1, e1), tier, version))
            },
        }
    }
}

/// The version named by the first token of `t` from `i` on that starts `v:`, or 1.
pub open spec fn first_v_version(t: Seq<u8>, i: int) -> u32
    decreases t.len() - i,
{
    match next_token(t, i) {
        None => 1,
        Some((s, e)) => if starts_with(t.subrange(s, e), version_tag()) {
            version_of_token(t.subrange(s, e))
        } else if e <= i || e > t.len() {
            1
        } else {
            first_v_version(t, e)
        },
    }
}

/// The version on the first line of `s`: its first `v:` token, or 1.
pub open spec fn marker_version(s: Seq<u8>) -> u32 {
    first_v_version(s.subrange(0, newline_or_end(s, 0)), 0)
}

// ---- section blocks ----------------------------------------------------------------------

/// `%%@<name> <tier> v:<version>`, a line break, the body, a line break if the body does not
/// end with one, then `%%END` and a line break.
pub open spec fn section_block(name: Seq<u8>, tier: Seq<u8>, version: u32, body: Seq<u8>) -> Seq<
    u8,
> {
    mark_tag() + name + seq![32u8] + tier + seq![32u8] + version_tag() + decimal(version as nat)
        + seq![10u8] + (if body.len() > 0 && body.last() == 10u8 {
        body
    } else {
        body.push(10u8)
    }) + end_tag() + seq![10u8]
}

/// Just past the `%%END` that closes the section starting at `from`, and past the line breaks
/// that follow it.
pub open spec fn section_end(c: Seq<u8>, from: int) -> int {
    match find_from(c, end_tag(), from) {
        Some(k) => skip_newlines(c, k + 5),
        None => c.len() + 5int,
    }
}

// ---- the index rebuild -------------------------------------------------------------------

/// A section marker found by the rebuild: its fields and where it starts in the body.
pub struct MarkerEntry {
    pub name: Seq<u8>,
    pub tier: Seq<u8>,
    pub version: u32,
    pub pos: int,
}

/// The part before the index block and the part after it. With both `%%INDEX` and
/// `%%END-INDEX` present, the header is what precedes `%%INDEX` and the body what follows
/// `%%END-INDEX`, without the line breaks that start it; otherwise the header is the first line.
pub open spec fn header_and_body(c: Seq<u8>) -> (Seq<u8>, Seq<u8>) {
    match (find_from(c, index_open_tag(), 0), find_from(c, index_close_tag(), 0)) {
        (Some(s), Some(e)) => (
            c.subrange(0, s),
            c.subrange(skip_newlines(c, e + 11), c.len() as int),
        ),
        _ => {
            let split = match find_from(c, seq![10u8], 0) {
                Some(i) => i + 1,
                None => c.len() as int,
            };
            (c.subrange(0, split), c.subrange(split, c.len() as int))
        },
    }
}

/// Position `pos` of `s` starts a line.
pub open spec fn line_start(s: Seq<u8>, pos: int) -> bool {
    pos == 0 || (0 < pos <= s.len() && s[pos - 1] == 10u8)
}

/// Every line of `body` from `from` on that starts with `%%@` and whose fields
/// `marker_fields` accepts, in order.
pub open spec fn scan_markers(body: Seq<u8>, from: int) -> Seq<MarkerEntry>
    decreases body.len() - from,
{
    match find_from(body, mark_tag(), from) {
        None => seq![],
        Some(pos) => if pos < from || pos + 3 > body.len() || from < 0 {
            seq![]
        } else if !line_start(body, pos) {
            scan_markers(body, pos + 3)
        } else {
            let rest = scan_markers(body, pos + 3);
            match marker_fields(body.subrange(pos, newline_or_end(body, pos))) {
                Some((n, t, v)) => seq![MarkerEntry { name: n, tier: t, version: v, pos: pos }]
                    + rest,
                None => rest,
            }
        },
    }
}

/// `name:tier:v<N>:<offset>` and a line break, the offset being `base + pos` zero-padded to 10.
pub open spec fn index_row(e: MarkerEntry, base: nat) -> Seq<u8> {
    e.name + seq![58u8] + e.tier + seq![58u8, 118u8] + decimal(e.version as nat) + seq![58u8]
        + zero_pad(decimal((base + e.pos) as nat), 10) + seq![10u8]
}

pub open spec fn index_rows(es: Seq<MarkerEntry>, base: nat) -> Seq<u8>
    decreases es.len(),
{
    if es.len() == 0 {
        seq![]
    } else {
        index_rows(es.drop_last(), base) + index_row(es.last(), base)
    }
}

/// The `%%INDEX` block listing `es` with offsets relative to `base`.
pub open spec fn index_block(es: Seq<MarkerEntry>, base: nat) -> Seq<u8> {
    index_open_tag() + seq![10u8] + index_rows(es, base) + index_close_tag() + seq![10u8]
}

/// The file with its index block regenerated from the markers found after it. The offset base
/// is the header's length plus the length of the block listing every offset as 0.
pub open spec fn rebuilt(c: Seq<u8>) -> Seq<u8> {
    let (header, body) = header_and_body(c);
    let es = scan_markers(body, 0);
    let base = header.len() + index_block(es, 0).len();
    header + index_block(es, base as nat) + body
}

// ---- updating one section ----------------------------------------------------------------

/// The marker line of section `name` starts at `k`: `%%@<name>` at the start of a line,
/// followed by whitespace or the end of the file, so that `name` is the marker's whole name.
pub open spec fn marker_at(c: Seq<u8>, name: Seq<u8>, k: int) -> bool {
    let e = k + 3 + name.len();
    &&& line_start(c, k)
    &&& occurs_at(c, mark_tag() + name, k)
    &&& (e == c.len() || ws_len(c, e) > 0)
}

/// The first marker line of section `name` at or after `from`.
pub open spec fn marker_from(c: Seq<u8>, name: Seq<u8>, from: int) -> Option<int>
    decreases c.len() - from,
{
    if from < 0 || from >= c.len() {
        None
    } else if marker_at(c, name, from) {
        Some(from)
    } else {
        marker_from(c, name, from + 1)
    }
}

/// Where the marker line of section `name` first stands in `c`, if anywhere.
pub open spec fn marker_pos(c: Seq<u8>, name: Seq<u8>) -> Option<int> {
    marker_from(c, name, 0)
}

/// What `marker_from` returns is a marker line of `name`, and none comes earlier.
pub proof fn lemma_marker_from(c: Seq<u8>, name: Seq<u8>, from: int)
    requires
        0 <= from,
    ensures
        marker_from(c, name, from) matches Some(k) ==> from <= k < c.len() && marker_at(c, name, k)
            && forall|j: int| from <= j < k ==> !marker_at(c, name, j),
        marker_from(c, name, from) is None ==> forall|j: int| from <= j ==> !marker_at(c, name, j),
    decreases c.len() - from,
{
    if from < c.len() && !marker_at(c, name, from) {
        lemma_marker_from(c, name, from + 1);
    }
}

/// Searching from any point before the first marker line of `name` finds that one.
pub proof fn lemma_marker_from_skip(c: Seq<u8>, name: Seq<u8>, from: int, mid: int)
    requires
        0 <= from <= mid,
        forall|j: int| from <= j < mid ==> !marker_at(c, name, j),
    ensures
        marker_from(c, name, from) == marker_from(c, name, mid),
    decreases mid - from,
{
    if from < mid {
        if from >= c.len() {
            lemma_marker_from(c, name, mid);
            if let Some(k) = marker_from(c, name, mid) {
                assert(false);
            }
        } else {
            lemma_marker_from_skip(c, name, from + 1, mid);
        }
    }
}

/// The inputs on which updating `name` in `c` is defined: a section found by its marker must
/// be closed by a `%%END` after it, and its version must leave room for one more.
pub open spec fn write_defined(c: Seq<u8>, name: Seq<u8>) -> bool {
    match marker_pos(c, name) {
        Some(start) => find_from(c, end_tag(), start) is Some && marker_version(
            c.subrange(start, c.len() as int),
        ) < u32::MAX,
        None => true,
    }
}

/// The file after writing `body` to section `name` with `tier`, before the index rebuild: the
/// section at the first marker line of `name` (up to its `%%END` and the line breaks after it) is
/// replaced with a block whose version is one higher, or a new block at version 1 is appended
/// after a line break.
pub open spec fn written(c: Seq<u8>, name: Seq<u8>, tier: Seq<u8>, body: Seq<u8>) -> Seq<u8> {
    match marker_pos(c, name) {
        Some(start) => c.subrange(0, start) + section_block(
            name,
            tier,
            (marker_version(c.subrange(start, c.len() as int)) + 1) as u32,
            body,
        ) + c.subrange(section_end(c, start), c.len() as int),
        None => c + seq![10u8] + section_block(name, tier, 1, body),
    }
}

// ---- executable side -----------------------------------------------------------------------

/// `version_of_token` of `t[s..e]`.
fn version_of_token_exec(t: &[u8], s: usize, e: usize) -> (r: u32)
    requires
        s <= e <= t@.len(),
    ensures
        r == version_of_token(t@.subrange(s as int, e as int)),
{
    let ghost tok = t@.subrange(s as int, e as int);
    let vt: [u8; 2] = [118, 58];
    assert(vt@ =~= version_tag());
    let tokv = copy_range(t, s, e);
    if !has_prefix(tokv.as_slice(), vt.as_slice()) {
        return 1;
    }
    proof {
        assert(tok.subrange(2, tok.len() as int) =~= t@.subrange(s + 2, e as int));
    }
    match parse_unsigned_range(t, s + 2, e, 0xffff_ffffu64) {
        Some(v) => v as u32,
        None => 1,
    }
}

/// `marker_fields` of a whole line, as the ranges of name and tier (no tier range: `!durable`).
fn marker_fields_exec(t: &[u8]) -> (r: Option<(usize, usize, Option<(usize, usize)>, u32)>)
    ensures
        match r {
            Some((s1, e1, tr, v)) => s1 <= e1 <= t@.len() && match tr {
                Some((s2, e2)) => s2 <= e2 <= t@.len() && marker_fields(t@) == Some(
                    (t@.subrange(s1 as int, e1 as int), t@.subrange(s2 as int, e2 as int), v),
                ),
                None => marker_fields(t@) == Some(
                    (t@.subrange(s1 as int, e1 as int), durable_tag(), v),
                ),
            },
            None => marker_fields(t@) is None,
        },
{
    let n = t.len();
    assert(t@.subrange(0, n as int) =~= t@);
    let mark: [u8; 3] = [37, 37, 64];
    assert(mark@ =~= mark_tag());
    if !has_prefix(t, mark.as_slice()) {
        return None;
    }
    let (s1, e1) = match next_token_at(t, 0, n, 3) {
        None => return None,
        Some(p) => p,
    };
    match next_token_at(t, 0, n, e1) {
        None => Some((s1, e1, None, 1)),
        Some((s2, e2)) => {
            let v = match next_token_at(t, 0, n, e2) {
                None => 1,
                Some((s3, e3)) => version_of_token_exec(t, s3, e3),
            };
            proof {
                if let Some((s3, e3)) = next_token(t@, e2 as int) {
                    if !starts_with(t@.subrange(s3, e3), version_tag()) {
                        assert(version_of_token(t@.subrange(s3, e3)) == 1);
                    }
                }
            }
            Some((s1, e1, Some((s2, e2)), v))
        },
    }
}

/// The version on the first line of `c[start..]`.
#[verifier::rlimit(30)]
fn marker_version_exec(c: &[u8], start: usize) -> (r: u32)
    requires
        start <= c@.len(),
    ensures
        r == marker_version(c@.subrange(start as int, c@.len() as int)),
{
    let ghost s = c@.subrange(start as int, c@.len() as int);
    let rest = copy_range(c, start, c.len());
    let le = line_end(rest.as_slice(), 0);
    proof {
        lemma_find_from(s, seq![10u8], 0);
    }
    let t = copy_range(rest.as_slice(), 0, le);
    let n = t.len();
    assert(t@.subrange(0, n as int) =~= t@);
    assert(rest@ == s);
    assert(t@ == s.subrange(0, newline_or_end(s, 0)));
    let mut i: usize = 0;
    loop
        invariant
            i <= n,
            n == t@.len(),
            t@.subrange(0, n as int) == t@,
            first_v_version(s.subrange(0, newline_or_end(s, 0)), 0) == first_v_version(
                t@,
                i as int,
            ),
            t@ == s.subrange(0, newline_or_end(s, 0)),
            s == c@.subrange(start as int, c@.len() as int),
        decreases n - i,
    {
        match next_token_at(t.as_slice(), 0, n, i) {
            None => return 1,
            Some((a, b)) => {
                let vt: [u8; 2] = [118, 58];
                assert(vt@ =~= version_tag());
                let tok = copy_range(t.as_slice(), a, b);
                if has_prefix(tok.as_slice(), vt.as_slice()) {
                    return version_of_token_exec(t.as_slice(), a, b);
                }
                i = b;
            },
        }
    }
}

/// Appends `section_block(name, tier, version, body)`.
#[verifier::rlimit(30)]
fn push_section_block(out: &mut Vec<u8>, name: &[u8], tier: &[u8], version: u32, body: &[u8])
    ensures
        final(out)@ == old(out)@ + section_block(name@, tier@, version, body@),
{
    let mark: [u8; 3] = [37, 37, 64];
    let end: [u8; 5] = [37, 37, 69, 78, 68];
    assert(mark@ =~= mark_tag());
    assert(end@ =~= end_tag());
    let ghost start = out@;
    push_all(out, mark.as_slice());
    push_all(out, name);
    out.push(32u8);
    push_all(out, tier);
    out.push(32u8);
    out.push(118u8);
    out.push(58u8);
    push_decimal(out, version as u128);
    out.push(10u8);
    let ghost mid = out@;
    push_all(out, body);
    let ends_nl = body.len() > 0 && body[body.len() - 1] == 10u8;
    if !ends_nl {
        out.push(10u8);
    }
    push_all(out, end.as_slice());
    out.push(10u8);
    proof {
        let b2 = if body@.len() > 0 && body@.last() == 10u8 {
            body@
        } else {
            body@.push(10u8)
        };
        assert(mid =~= start + mark_tag() + name@ + seq![32u8] + tier@ + seq![32u8] + version_tag()
            + decimal(version as nat) + seq![10u8]);
        assert(out@ =~= start + section_block(name@, tier@, version, body@));
    }
}

/// A rebuild marker, with its name and tier as bytes.
struct MarkerRow {
    name: Vec<u8>,
    tier: Vec<u8>,
    version: u32,
    pos: usize,
}

impl MarkerRow {
    spec fn entry(&self) -> MarkerEntry {
        MarkerEntry { name: self.name@, tier: self.tier@, version: self.version, pos: self.pos as int }
    }
}

spec fn entries(rows: Seq<MarkerRow>) -> Seq<MarkerEntry> {
    rows.map_values(|r: MarkerRow| r.entry())
}

/// The markers of `body`, in order (`scan_markers(body, 0)`).
#[verifier::rlimit(30)]
fn scan_markers_exec(body: &[u8]) -> (r: Vec<MarkerRow>)
    ensures
        entries(r@) == scan_markers(body@, 0),
        forall|i: int| 0 <= i < r@.len() ==> r@[i].pos < body@.len(),
{
    let mark: [u8; 3] = [37, 37, 64];
    let durable: [u8; 8] = [33, 100, 117, 114, 97, 98, 108, 101];
    assert(mark@ =~= mark_tag());
    assert(durable@ =~= durable_tag());
    let mut rows: Vec<MarkerRow> = Vec::new();
    let mut from: usize = 0;
    assert(entries(rows@) + scan_markers(body@, 0) =~= scan_markers(body@, 0));
    loop
        invariant
            from <= body@.len(),
            mark@ == mark_tag(),
            durable@ == durable_tag(),
            entries(rows@) + scan_markers(body@, from as int) == scan_markers(body@, 0),
            forall|i: int| 0 <= i < rows@.len() ==> rows@[i].pos < body@.len(),
        decreases body@.len() - from,
    {
        match find(body, mark.as_slice(), from) {
            None => {
                assert(entries(rows@) =~= scan_markers(body@, 0));
                return rows;
            },
            Some(pos) => {
                proof {
                    lemma_find_from(body@, mark_tag(), from as int);
                }
                let blen = body.len();
                assert(pos + 3 <= blen);
                if pos > 0 && body[pos - 1] != 10u8 {
                    from = pos + 3;
                    continue;
                }
                let le = line_end(body, pos);
                proof {
                    lemma_find_from(body@, seq![10u8], pos as int);
                }
                let line = copy_range(body, pos, le);
                let ghost before = rows@;
                match marker_fields_exec(line.as_slice()) {
                    Some((s1, e1, tr, v)) => {
                        let name = copy_range(line.as_slice(), s1, e1);
                        let tier = match tr {
                            Some((s2, e2)) => copy_range(line.as_slice(), s2, e2),
                            None => copy_range(durable.as_slice(), 0, 8),
                        };
                        proof {
                            assert(durable@.subrange(0, 8) =~= durable@);
                        }
                        rows.push(MarkerRow { name, tier, version: v, pos });
                        proof {
                            let e = rows@.last().entry();
                            assert(entries(rows@) =~= entries(before).push(e));
                            assert(entries(before) + scan_markers(body@, from as int) =~= entries(
                                before,
                            ) + (seq![e] + scan_markers(body@, pos + 3)));
                            assert(entries(rows@) + scan_markers(body@, pos + 3) =~= entries(
                                before,
                            ) + (seq![e] + scan_markers(body@, pos + 3)));
                        }
                    },
                    None => {},
                }
                from = pos + 3;
            },
        }
    }
}

/// Appends the index rows of `rows` with offsets relative to `base`.
#[verifier::rlimit(30)]
fn push_index_rows(out: &mut Vec<u8>, rows: &Vec<MarkerRow>, base: u128)
    requires
        base <= u64::MAX as u128 * 3,
        forall|i: int| 0 <= i < rows@.len() ==> rows@[i].pos <= u64::MAX,
    ensures
        final(out)@ == old(out)@ + index_rows(entries(rows@), base as nat),
{
    let ghost start = out@;
    let mut i: usize = 0;
    assert(entries(rows@).subrange(0, 0) =~= Seq::<MarkerEntry>::empty());
    while i < rows.len()
        invariant
            i <= rows@.len(),
            base <= u64::MAX as u128 * 3,
            forall|j: int| 0 <= j < rows@.len() ==> rows@[j].pos <= u64::MAX,
            out@ == start + index_rows(entries(rows@).subrange(0, i as int), base as nat),
        decreases rows@.len() - i,
    {
        let row = &rows[i];
        let ghost before = out@;
        push_all(out, row.name.as_slice());
        out.push(58u8);
        push_all(out, row.tier.as_slice());
        out.push(58u8);
        out.push(118u8);
        push_decimal(out, row.version as u128);
        out.push(58u8);
        push_decimal_padded(out, base + row.pos as u128, 10);
        out.push(10u8);
        proof {
            let es = entries(rows@);
            assert(es.subrange(0, i + 1).drop_last() =~= es.subrange(0, i as int));
            assert(es.subrange(0, i + 1).last() == rows@[i as int].entry());
            assert(out@ =~= before + index_row(rows@[i as int].entry(), base as nat));
        }
        i = i + 1;
    }
    assert(entries(rows@).subrange(0, rows@.len() as int) =~= entries(rows@));
}

/// Appends `index_block(rows, base)`.
fn push_index_block(out: &mut Vec<u8>, rows: &Vec<MarkerRow>, base: u128)
    requires
        base <= u64::MAX as u128 * 3,
        forall|i: int| 0 <= i < rows@.len() ==> rows@[i].pos <= u64::MAX,
    ensures
        final(out)@ == old(out)@ + index_block(entries(rows@), base as nat),
{
    let open: [u8; 7] = [37, 37, 73, 78, 68, 69, 88];
    let close: [u8; 11] = [37, 37, 69, 78, 68, 45, 73, 78, 68, 69, 88];
    assert(open@ =~= index_open_tag());
    assert(close@ =~= index_close_tag());
    let ghost start = out@;
    push_all(out, open.as_slice());
    out.push(10u8);
    push_index_rows(out, rows, base);
    push_all(out, close.as_slice());
    out.push(10u8);
    assert(out@ =~= start + index_block(entries(rows@), base as nat));
}

/// The file with its index block regenerated (`rebuilt`).
#[verifier::rlimit(30)]
pub fn rebuild(c: &[u8]) -> (r: Vec<u8>)
    ensures
        r@ == rebuilt(c@),
{
    let open: [u8; 7] = [37, 37, 73, 78, 68, 69, 88];
    let close: [u8; 11] = [37, 37, 69, 78, 68, 45, 73, 78, 68, 69, 88];
    assert(open@ =~= index_open_tag());
    assert(close@ =~= index_close_tag());
    let n = c.len();
    assert(n <= u64::MAX);
    let (hend, bstart) = match (find(c, open.as_slice(), 0), find(c, close.as_slice(), 0)) {
        (Some(s), Some(e)) => {
            proof {
                lemma_find_from(c@, index_open_tag(), 0);
                lemma_find_from(c@, index_close_tag(), 0);
            }
            (s, skip_newline_bytes(c, e + 11))
        },
        _ => {
            let nl: [u8; 1] = [10];
            assert(nl@ =~= seq![10u8]);
            let split = match find(c, nl.as_slice(), 0) {
                Some(i) => {
                    proof {
                        lemma_find_from(c@, seq![10u8], 0);
                    }
                    i + 1
                },
                None => n,
            };
            (split, split)
        },
    };
    let header = copy_range(c, 0, hend);
    let body = copy_range(c, bstart, n);
    let rows = scan_markers_exec(body.as_slice());
    let mut dummy: Vec<u8> = Vec::new();
    push_index_block(&mut dummy, &rows, 0);
    let base: u128 = header.len() as u128 + dummy.len() as u128;
    let mut out = header;
    push_index_block(&mut out, &rows, base);
    push_all(&mut out, body.as_slice());
    proof {
        assert(Seq::<u8>::empty() + index_block(entries(rows@), 0) =~= index_block(
            entries(rows@),
            0,
        ));
    }
    out
}

/// Where the marker line of section `name` first stands in `c` (`marker_pos`).
fn find_marker(c: &[u8], name: &[u8]) -> (r: Option<usize>)
    ensures
        match r {
            Some(k) => marker_pos(c@, name@) == Some(k as int),
            None => marker_pos(c@, name@) is None,
        },
{
    let mut marker: Vec<u8> = Vec::new();
    let mark: [u8; 3] = [37, 37, 64];
    assert(mark@ =~= mark_tag());
    push_all(&mut marker, mark.as_slice());
    push_all(&mut marker, name);
    assert(marker@ =~= mark_tag() + name@);
    let n = c.len();
    let m = marker.len();
    assert(c@.subrange(0, n as int) =~= c@);
    let mut from: usize = 0;
    loop
        invariant
            from <= n,
            n == c@.len(),
            m == marker@.len(),
            marker@ == mark_tag() + name@,
            c@.subrange(0, n as int) == c@,
            marker_from(c@, name@, 0) == marker_from(c@, name@, from as int),
        decreases n - from,
    {
        match find(c, marker.as_slice(), from) {
            None => {
                proof {
                    lemma_find_from(c@, marker@, from as int);
                    lemma_marker_from(c@, name@, from as int);
                }
                return None;
            },
            Some(k) => {
                proof {
                    lemma_find_from(c@, marker@, from as int);
                    lemma_marker_from_skip(c@, name@, from as int, k as int);
                }
                let e = k + m;
                let at_line = k == 0 || c[k - 1] == 10u8;
                let delimited = e == n || ws_len_at(c, 0, n, e) > 0;
                if at_line && delimited {
                    return Some(k);
                }
                from = k + 1;
            },
        }
    }
}

/// Whether updating `name` in `c` is defined (`write_defined`).
pub fn write_is_defined(c: &[u8], name: &[u8]) -> (r: bool)
    ensures
        r == write_defined(c@, name@),
{
    let end: [u8; 5] = [37, 37, 69, 78, 68];
    assert(end@ =~= end_tag());
    match find_marker(c, name) {
        None => true,
        Some(start) => {
            proof {
                lemma_marker_from(c@, name@, 0);
            }
            find(c, end.as_slice(), start).is_some() && marker_version_exec(c, start) < 0xffff_ffffu32
        },
    }
}

/// Writes `body` to section `name` with `tier` (`written`).
#[verifier::rlimit(30)]
pub fn apply_write(c: &[u8], name: &[u8], tier: &[u8], body: &[u8]) -> (r: Vec<u8>)
    requires
        write_defined(c@, name@),
    ensures
        r@ == written(c@, name@, tier@, body@),
{
    let end: [u8; 5] = [37, 37, 69, 78, 68];
    assert(end@ =~= end_tag());
    let n = c.len();
    match find_marker(c, name) {
        None => {
            let mut out = copy_range(c, 0, n);
            out.push(10u8);
            push_section_block(&mut out, name, tier, 1, body);
            assert(c@.subrange(0, n as int) =~= c@);
            out
        },
        Some(start) => {
            proof {
                lemma_marker_from(c@, name@, 0);
            }
            let k = match find(c, end.as_slice(), start) {
                Some(k) => k,
                None => {
                    proof {
                        assert(false);
                    }
                    return Vec::new();
                },
            };
            proof {
                lemma_find_from(c@, end_tag(), start as int);
                assert(k + 5 <= n);
            }
            let e = skip_newline_bytes(c, k + 5);
            let version = marker_version_exec(c, start) + 1;
            let mut out = copy_range(c, 0, start);
            push_section_block(&mut out, name, tier, version, body);
            push_range(&mut out, c, e, n);
            out
        },
    }
}

} // verus!
