//! The `.mctx` byte layout: markers, section blocks, the `%%INDEX` block and the scans over them.
//!
//! ```text
//! #mctx v1.1 | updated:<ISO date>
//! %%INDEX
//! <name>:<tier>:v<N>:<byte-offset>     (offsets zero-padded to 10 digits)
//! %%END-INDEX
//! %%@<name> <tier> v:<N>
//! <body>
//! %%END
//! ```
use vstd::prelude::*;
use vstd::utf8::*;
use crate::bytes::{
    copy_range, find, find_from, lemma_find_from, line_end, matches_at, newline_or_end, push_all,
    starts_with,
};
use crate::numbers::{parse_unsigned, parse_unsigned_range};
use crate::unicode::{ascii_edge, lemma_valid_subrange, string_from_utf8};

verus! {

/// `%%@`, which opens a section marker line.
pub open spec fn mark_tag() -> Seq<u8> {
    seq![37u8, 37u8, 64u8]
}

/// `%%END`, which closes a section.
pub open spec fn end_tag() -> Seq<u8> {
    seq![37u8, 37u8, 69u8, 78u8, 68u8]
}

/// `%%INDEX`, which opens the index block.
pub open spec fn index_open_tag() -> Seq<u8> {
    seq![37u8, 37u8, 73u8, 78u8, 68u8, 69u8, 88u8]
}

/// `%%END-INDEX`, which closes the index block.
pub open spec fn index_close_tag() -> Seq<u8> {
    seq![37u8, 37u8, 69u8, 78u8, 68u8, 45u8, 73u8, 78u8, 68u8, 69u8, 88u8]
}

/// `v:`, which introduces a version on a marker line.
pub open spec fn version_tag() -> Seq<u8> {
    seq![118u8, 58u8]
}

/// `!durable`, the tier of a marker line that names none.
pub open spec fn durable_tag() -> Seq<u8> {
    seq![33u8, 100u8, 117u8, 114u8, 97u8, 98u8, 108u8, 101u8]
}

/// Width to which index offsets are zero-padded, so that the index block's length does not
/// depend on the offsets it lists.
pub const OFFSET_WIDTH: usize = 10;

/// One row of the `%%INDEX` block, as bytes.
pub struct SectionView {
    pub name: Seq<u8>,
    pub tier: Seq<u8>,
    pub version: u32,
    pub offset: u64,
}

/// One row of the `%%INDEX` block.
#[derive(Debug, Clone, PartialEq, Eq)]
pub struct Section {
    pub name: String,
    pub tier: String,
    pub version: u32,
    /// Byte position of the section's `%%@name` marker line, as the index lists it; a rebuild
    /// lists the start of each marker line, and reads check the marker found there.
    pub offset: u64,
}

impl View for Section {
    type V = SectionView;

    open spec fn view(&self) -> SectionView {
        SectionView {
            name: encode_utf8(self.name@),
            tier: encode_utf8(self.tier@),
            version: self.version,
            offset: self.offset,
        }
    }
}

pub open spec fn section_views(v: Seq<Section>) -> Seq<SectionView> {
    v.map_values(|s: Section| s@)
}

// ---- lines -------------------------------------------------------------------------------

/// Where the line that starts at `pos` is followed by the next one (past its `'\n'`), or the end.
pub open spec fn line_next(c: Seq<u8>, pos: int) -> int {
    match find_from(c, seq![10u8], pos) {
        Some(k) => k + 1,
        None => c.len() as int,
    }
}

/// The text of the line that starts at `pos`, as `BufRead::lines` yields it: without its
/// `'\n'`, and without a `'\r'` just before that `'\n'`.
pub open spec fn line_text(c: Seq<u8>, pos: int) -> Seq<u8> {
    match find_from(c, seq![10u8], pos) {
        Some(k) => if k > pos && c[k - 1] == 13u8 {
            c.subrange(pos, k - 1)
        } else {
            c.subrange(pos, k)
        },
        None => c.subrange(pos, c.len() as int),
    }
}

pub proof fn lemma_line(c: Seq<u8>, pos: int)
    requires
        0 <= pos < c.len(),
    ensures
        pos < line_next(c, pos) <= c.len(),
        line_next(c, pos) == newline_or_end(c, pos) + 1 || line_next(c, pos) == c.len(),
        pos <= newline_or_end(c, pos) <= c.len(),
        line_next(c, pos) < c.len() ==> c[line_next(c, pos) - 1] == 10u8,
        line_text(c, pos) == c.subrange(pos, pos + line_text(c, pos).len()),
        ascii_edge(c.subrange(pos, line_next(c, pos)), line_text(c, pos).len() as int),
{
    lemma_find_from(c, seq![10u8], pos);
    match find_from(c, seq![10u8], pos) {
        Some(k) => {
            assert(c.subrange(k, k + 1)[0] == 10u8);
            assert(c[k] == 10u8);
            let seg = c.subrange(pos, k + 1);
            if k > pos && c[k - 1] == 13u8 {
                assert(seg[k - 1 - pos] == 13u8);
            } else {
                assert(seg[k - pos] == 10u8);
            }
        },
        None => {},
    }
}

// ---- the index block, read side ----------------------------------------------------------

/// The fields of an index line `name:tier:v<N>:<offset>`: it needs three `':'`; the third field
/// must start with `v` (a version that does not parse counts as 1) and the rest must parse as
/// a `u64`.
pub open spec fn index_line_fields(line: Seq<u8>) -> Option<SectionView> {
    let colon = seq![58u8];
    match find_from(line, colon, 0) {
        None => None,
        Some(i1) => match find_from(line, colon, i1 + 1) {
            None => None,
            Some(i2) => match find_from(line, colon, i2 + 1) {
                None => None,
                Some(i3) => {
                    let vfield = line.subrange(i2 + 1, i3);
                    let ofield = line.subrange(i3 + 1, line.len() as int);
                    if vfield.len() == 0 || vfield[0] != 118u8 {
                        None
                    } else {
                        match parse_unsigned(ofield, u64::MAX as nat) {
                            None => None,
                            Some(off) => Some(
                                SectionView {
                                    name: line.subrange(0, i1),
                                    tier: line.subrange(i1 + 1, i2),
                                    version: match parse_unsigned(
                                        vfield.subrange(1, vfield.len() as int),
                                        u32::MAX as nat,
                                    ) {
                                        Some(v) => v as u32,
                                        None => 1,
                                    },
                                    offset: off as u64,
                                },
                            ),
                        }
                    }
                },
            },
        },
    }
}

/// Reads the index line by line from `pos`. Each line read must be valid UTF-8, or the scan
/// stops and reports failure with the rows found so far. A line starting `%%INDEX` opens the
/// index, one starting `%%END-INDEX` ends the scan, and inside the index every line that
/// `index_line_fields` accepts adds a row.
pub open spec fn scan_index_from(
    c: Seq<u8>,
    pos: int,
    in_index: bool,
    acc: Seq<SectionView>,
) -> (Seq<SectionView>, bool)
    decreases c.len() - pos,
{
    if pos < 0 || pos >= c.len() {
        (acc, true)
    } else {
        let next = line_next(c, pos);
        let line = line_text(c, pos);
        if next <= pos || next > c.len() {
            (acc, true)
        } else if !valid_utf8(c.subrange(pos, next)) {
            (acc, false)
        } else if starts_with(line, index_open_tag()) {
            scan_index_from(c, next, true, acc)
        } else if starts_with(line, index_close_tag()) {
            (acc, true)
        } else if in_index && index_line_fields(line) is Some {
            scan_index_from(c, next, in_index, acc.push(index_line_fields(line)->0))
        } else {
            scan_index_from(c, next, in_index, acc)
        }
    }
}

/// The rows of the file's index, and whether every line read on the way was valid UTF-8.
pub open spec fn index_of(c: Seq<u8>) -> (Seq<SectionView>, bool) {
    scan_index_from(c, 0, false, seq![])
}

// ---- reading one section -----------------------------------------------------------------

/// What reading a section at a byte offset gives.
pub enum ReadOutcome {
    /// The body: each line up to the first one starting `%%END`, with a `'\n'` after each.
    Body(Seq<u8>),
    /// The offset does not point at the marker line of the section read.
    BadMarker,
    /// A line read on the way is not valid UTF-8.
    BadUtf8,
}

/// Reads body lines from `pos` until a line starting `%%END` or the end of the file.
pub open spec fn read_lines(c: Seq<u8>, pos: int, acc: Seq<u8>) -> ReadOutcome
    decreases c.len() - pos,
{
    if pos < 0 || pos >= c.len() {
        ReadOutcome::Body(acc)
    } else {
        let next = line_next(c, pos);
        if next <= pos || next > c.len() {
            ReadOutcome::Body(acc)
        } else if !valid_utf8(c.subrange(pos, next)) {
            ReadOutcome::BadUtf8
        } else if starts_with(line_text(c, pos), end_tag()) {
            ReadOutcome::Body(acc)
        } else {
            read_lines(c, next, acc + line_text(c, pos) + seq![10u8])
        }
    }
}

/// The line `line` is the marker line of section `name`: `%%@<name>` followed by whitespace or
/// the end of the line.
pub open spec fn names_marker(line: Seq<u8>, name: Seq<u8>) -> bool {
    let n = 3 + name.len() as int;
    &&& starts_with(line, mark_tag() + name)
    &&& (n == line.len() || crate::unicode::ws_len(line, n) > 0)
}

/// Reads section `name`, whose marker line starts at `offset`.
pub open spec fn read_at(c: Seq<u8>, offset: nat, name: Seq<u8>) -> ReadOutcome {
    if offset >= c.len() {
        ReadOutcome::BadMarker
    } else {
        let next = line_next(c, offset as int);
        if !valid_utf8(c.subrange(offset as int, next)) {
            ReadOutcome::BadUtf8
        } else if !names_marker(c.subrange(offset as int, next), name) {
            ReadOutcome::BadMarker
        } else {
            read_lines(c, next, seq![])
        }
    }
}

// ---- executable side -----------------------------------------------------------------------

/// Whether `s` begins with `p`.
pub fn has_prefix(s: &[u8], p: &[u8]) -> (r: bool)
    ensures
        r == starts_with(s@, p@),
{
    matches_at(s, p, 0)
}

/// The line starting at `pos`: where the next one starts and where its text ends.
fn line_bounds(c: &[u8], pos: usize) -> (r: (usize, usize))
    requires
        pos < c@.len(),
    ensures
        r.0 == line_next(c@, pos as int),
        pos <= r.1 <= r.0,
        line_text(c@, pos as int) == c@.subrange(pos as int, r.1 as int),
{
    let k = line_end(c, pos);
    proof {
        lemma_line(c@, pos as int);
        lemma_find_from(c@, seq![10u8], pos as int);
    }
    if k < c.len() {
        if k > pos && c[k - 1] == 13u8 {
            (k + 1, k - 1)
        } else {
            (k + 1, k)
        }
    } else {
        (c.len(), c.len())
    }
}

/// Whether `c[a..b]` is valid UTF-8.
fn valid_range(c: &[u8], a: usize, b: usize) -> (r: bool)
    requires
        a <= b <= c@.len(),
    ensures
        r == valid_utf8(c@.subrange(a as int, b as int)),
{
    let seg = copy_range(c, a, b);
    string_from_utf8(seg).is_some()
}

/// A `String` holding `bytes`, which are known to be valid UTF-8.
pub fn string_of(bytes: Vec<u8>) -> (s: String)
    requires
        valid_utf8(bytes@),
    ensures
        encode_utf8(s@) == bytes@,
{
    match string_from_utf8(bytes) {
        Some(s) => s,
        None => {
            proof {
                assert(false);
            }
            String::new()
        },
    }
}

/// Splits a valid index line into its fields.
fn index_line_exec(line: &[u8]) -> (r: Option<Section>)
    requires
        valid_utf8(line@),
    ensures
        match r {
            Some(s) => index_line_fields(line@) == Some(s@),
            None => index_line_fields(line@) is None,
        },
{
    let colon: [u8; 1] = [58];
    assert(colon@ =~= seq![58u8]);
    let n = line.len();
    let i1 = match find(line, colon.as_slice(), 0) {
        Some(i) => i,
        None => return None,
    };
    proof {
        lemma_find_from(line@, seq![58u8], 0);
        assert(i1 < n);
    }
    let i2 = match find(line, colon.as_slice(), i1 + 1) {
        Some(i) => i,
        None => return None,
    };
    proof {
        lemma_find_from(line@, seq![58u8], i1 + 1);
        assert(i2 < n);
    }
    let i3 = match find(line, colon.as_slice(), i2 + 1) {
        Some(i) => i,
        None => return None,
    };
    proof {
        lemma_find_from(line@, seq![58u8], i2 + 1);
        assert(line@.subrange(i1 as int, i1 + 1)[0] == 58u8);
        assert(line@.subrange(i2 as int, i2 + 1)[0] == 58u8);
        assert(line@.subrange(i3 as int, i3 + 1)[0] == 58u8);
    }
    let ghost vfield = line@.subrange(i2 + 1, i3 as int);
    if i2 + 1 == i3 || line[i2 + 1] != 118u8 {
        proof {
            if i2 + 1 < i3 {
                assert(vfield[0] == line@[i2 + 1]);
            }
        }
        return None;
    }
    proof {
        assert(vfield[0] == line@[i2 + 1]);
    }
    let off = match parse_unsigned_range(line, i3 + 1, line.len(), u64::MAX) {
        Some(o) => o,
        None => return None,
    };
    let version: u32 = match parse_unsigned_range(line, i2 + 2, i3, 0xffff_ffffu64) {
        Some(v) => v as u32,
        None => 1,
    };
    proof {
        assert(vfield.subrange(1, vfield.len() as int) =~= line@.subrange(i2 + 2, i3 as int));
        lemma_valid_subrange(line@, 0, i1 as int);
        lemma_valid_subrange(line@, i1 + 1, i2 as int);
    }
    let name = string_of(copy_range(line, 0, i1));
    let tier = string_of(copy_range(line, i1 + 1, i2));
    Some(Section { name, tier, version, offset: off })
}

/// Reads the index: the rows found, and whether every line read was valid UTF-8.
#[verifier::rlimit(30)]
pub fn scan_index(c: &[u8]) -> (r: (Vec<Section>, bool))
    ensures
        (section_views(r.0@), r.1) == index_of(c@),
{
    let open: [u8; 7] = [37, 37, 73, 78, 68, 69, 88];
    let close: [u8; 11] = [37, 37, 69, 78, 68, 45, 73, 78, 68, 69, 88];
    assert(open@ =~= index_open_tag());
    assert(close@ =~= index_close_tag());
    let mut rows: Vec<Section> = Vec::new();
    let mut pos: usize = 0;
    let mut in_index = false;
    assert(section_views(rows@) =~= Seq::<SectionView>::empty());
    while pos < c.len()
        invariant
            pos <= c@.len(),
            open@ == index_open_tag(),
            close@ == index_close_tag(),
            index_of(c@) == scan_index_from(c@, pos as int, in_index, section_views(rows@)),
        decreases c@.len() - pos,
    {
        let (next, te) = line_bounds(c, pos);
        proof {
            lemma_line(c@, pos as int);
        }
        if !valid_range(c, pos, next) {
            return (rows, false);
        }
        let line = copy_range(c, pos, te);
        if has_prefix(line.as_slice(), open.as_slice()) {
            in_index = true;
        } else if has_prefix(line.as_slice(), close.as_slice()) {
            return (rows, true);
        } else if in_index {
            proof {
                lemma_valid_subrange(c@.subrange(pos as int, next as int), 0, te - pos);
                assert(c@.subrange(pos as int, next as int).subrange(0, te - pos) =~= line@);
            }
            match index_line_exec(line.as_slice()) {
                Some(s) => {
                    let ghost before = rows@;
                    rows.push(s);
                    proof {
                        assert(section_views(rows@) =~= section_views(before).push(s@));
                    }
                },
                None => {},
            }
        }
        pos = next;
    }
    (rows, true)
}

/// Reads body lines from `pos` (see `read_lines`); `Ok` holds the body, `Err(true)` a bad
/// marker and `Err(false)` invalid UTF-8.
fn read_lines_exec(c: &[u8], start: usize) -> (r: Option<Vec<u8>>)
    requires
        start <= c@.len(),
    ensures
        match r {
            Some(b) => read_lines(c@, start as int, seq![]) == ReadOutcome::Body(b@) && valid_utf8(b@),
            None => read_lines(c@, start as int, seq![]) == ReadOutcome::BadUtf8,
        },
{
    let end: [u8; 5] = [37, 37, 69, 78, 68];
    assert(end@ =~= end_tag());
    let mut body: Vec<u8> = Vec::new();
    let mut pos = start;
    while pos < c.len()
        invariant
            start <= pos <= c@.len(),
            end@ == end_tag(),
            valid_utf8(body@),
            read_lines(c@, start as int, seq![]) == read_lines(c@, pos as int, body@),
        decreases c@.len() - pos,
    {
        let (next, te) = line_bounds(c, pos);
        proof {
            lemma_line(c@, pos as int);
        }
        if !valid_range(c, pos, next) {
            return None;
        }
        let line = copy_range(c, pos, te);
        if has_prefix(line.as_slice(), end.as_slice()) {
            return Some(body);
        }
        let ghost before = body@;
        push_all(&mut body, line.as_slice());
        body.push(10u8);
        proof {
            lemma_valid_subrange(c@.subrange(pos as int, next as int), 0, te - pos);
            assert(c@.subrange(pos as int, next as int).subrange(0, te - pos) =~= line@);
            assert(valid_utf8(seq![10u8])) by {
                reveal_with_fuel(valid_utf8, 2);
            }
            valid_utf8_concat(before, line@);
            valid_utf8_concat(before + line@, seq![10u8]);
            assert(body@ =~= before + line@ + seq![10u8]);
        }
        pos = next;
    }
    Some(body)
}

/// Reads the section whose marker line starts at `offset`: the body, or which failure.
pub fn read_at_exec(c: &[u8], offset: u64, name: &[u8]) -> (r: Result<String, bool>)
    ensures
        match r {
            Ok(s) => read_at(c@, offset as nat, name@) == ReadOutcome::Body(encode_utf8(s@)),
            Err(true) => read_at(c@, offset as nat, name@) == ReadOutcome::BadMarker,
            Err(false) => read_at(c@, offset as nat, name@) == ReadOutcome::BadUtf8,
        },
{
    let len = c.len();
    if offset >= len as u64 {
        return Err(true);
    }
    let pos = offset as usize;
    let mark: [u8; 3] = [37, 37, 64];
    assert(mark@ =~= mark_tag());
    let (next, _te) = line_bounds(c, pos);
    proof {
        lemma_line(c@, pos as int);
    }
    if !valid_range(c, pos, next) {
        return Err(false);
    }
    let seg = copy_range(c, pos, next);
    let mut marker: Vec<u8> = Vec::new();
    push_all(&mut marker, mark.as_slice());
    push_all(&mut marker, name);
    assert(marker@ =~= mark_tag() + name@);
    if !has_prefix(seg.as_slice(), marker.as_slice()) {
        return Err(true);
    }
    let n = marker.len();
    let sl = seg.len();
    assert(seg@.subrange(0, sl as int) =~= seg@);
    if n != sl && crate::unicode::ws_len_at(seg.as_slice(), 0, sl, n) == 0 {
        return Err(true);
    }
    match read_lines_exec(c, next) {
        Some(b) => Ok(string_of(b)),
        None => Err(false),
    }
}

} // verus!
