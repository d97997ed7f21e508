//! A small text buffer for editing one section body: lines, a cursor row, and a cursor column
//! counted in bytes.
use vstd::prelude::*;
use vstd::utf8::*;
use crate::bytes::{copy_range, find, find_from, lemma_find_from, push_all, push_range};
use crate::layout::string_of;
use crate::unicode::lemma_str_valid;

verus! {

broadcast use {is_char_boundary_iff_is_leading_byte, is_char_boundary_start_end_of_seq};

/// The bytes of each line.
pub open spec fn line_views(lines: Seq<String>) -> Seq<Seq<u8>> {
    lines.map_values(|l: String| encode_utf8(l@))
}

/// The lines joined with `'\n'` between them.
pub open spec fn joined(lines: Seq<Seq<u8>>) -> Seq<u8>
    decreases lines.len(),
{
    if lines.len() == 0 {
        seq![]
    } else if lines.len() == 1 {
        lines[0]
    } else {
        joined(lines.drop_last()) + seq![10u8] + lines.last()
    }
}

/// The pieces of `b` from `pos` on between `'\n'` bytes (`str::split('\n')`).
pub open spec fn split_from(b: Seq<u8>, pos: int) -> Seq<Seq<u8>>
    decreases b.len() - pos,
{
    match find_from(b, seq![10u8], pos) {
        Some(k) => if k < pos || k >= b.len() || pos < 0 {
            seq![]
        } else {
            seq![b.subrange(pos, k)] + split_from(b, k + 1)
        },
        None => seq![b.subrange(pos, b.len() as int)],
    }
}

/// The lines a stored body opens as: its pieces between `'\n'`, without the empty piece after
/// a final `'\n'`, and one empty line for an empty body.
pub open spec fn body_lines(b: Seq<u8>) -> Seq<Seq<u8>> {
    let pieces = split_from(b, 0);
    let trimmed = if pieces.len() > 0 && pieces.last().len() == 0 {
        pieces.drop_last()
    } else {
        pieces
    };
    if trimmed.len() == 0 {
        seq![seq![]]
    } else {
        trimmed
    }
}

/// The body a list of lines is stored as: joined with `'\n'`, plus a final `'\n'` unless empty.
pub open spec fn body_of(lines: Seq<Seq<u8>>) -> Seq<u8> {
    let j = joined(lines);
    if j.len() == 0 {
        j
    } else {
        j.push(10u8)
    }
}

/// `b` with the scalar that starts at byte `i` removed.
pub open spec fn remove_scalar(b: Seq<u8>, i: int) -> Seq<u8> {
    b.subrange(0, i) + b.subrange(i + length_of_first_scalar(b.subrange(i, b.len() as int)), b.len() as int)
}

/// `b` with the UTF-8 encoding of `c` inserted at byte `i`.
pub open spec fn insert_scalar(b: Seq<u8>, i: int, c: char) -> Seq<u8> {
    b.subrange(0, i) + encode_utf8(seq![c]) + b.subrange(i, b.len() as int)
}

/// A buffer's lines as bytes and its cursor.
pub struct BufferState {
    pub lines: Seq<Seq<u8>>,
    pub row: int,
    pub col: int,
}

/// The state after typing `c`: a line break splits the cursor's line and moves the cursor to the
/// start of the new line below; any other character is inserted at the cursor, which moves one
/// byte right.
pub open spec fn inserted(s: BufferState, c: char) -> BufferState {
    let line = s.lines[s.row];
    if c == '\n' {
        BufferState {
            lines: s.lines.update(s.row, line.subrange(0, s.col)).insert(
                s.row + 1,
                line.subrange(s.col, line.len() as int),
            ),
            row: s.row + 1,
            col: 0,
        }
    } else {
        BufferState { lines: s.lines.update(s.row, insert_scalar(line, s.col, c)), row: s.row, col: s.col + 1 }
    }
}

/// The state after a backspace: the character before the cursor goes; at the start of a line
/// the line is joined onto the one above, the cursor where they meet; at the very start
/// nothing changes.
pub open spec fn backspaced(s: BufferState) -> BufferState {
    if s.col > 0 {
        BufferState {
            lines: s.lines.update(s.row, remove_scalar(s.lines[s.row], s.col - 1)),
            row: s.row,
            col: s.col - 1,
        }
    } else if s.row > 0 {
        BufferState {
            lines: s.lines.update(s.row - 1, s.lines[s.row - 1] + s.lines[s.row]).remove(s.row),
            row: s.row - 1,
            col: s.lines[s.row - 1].len() as int,
        }
    } else {
        s
    }
}

/// The state after a delete: the character at the cursor goes; at the end of a line the next
/// line is joined onto it; at the very end nothing changes.
pub open spec fn deleted(s: BufferState) -> BufferState {
    if s.col < s.lines[s.row].len() {
        BufferState { lines: s.lines.update(s.row, remove_scalar(s.lines[s.row], s.col)), ..s }
    } else if s.row + 1 < s.lines.len() {
        BufferState {
            lines: s.lines.update(s.row, s.lines[s.row] + s.lines[s.row + 1]).remove(s.row + 1),
            ..s
        }
    } else {
        s
    }
}

/// A text buffer for one section body.
#[derive(Debug, Clone, PartialEq, Eq, Default)]
pub struct Buffer {
    pub lines: Vec<String>,
    pub cursor_row: usize,
    pub cursor_col: usize,
}

/// The UTF-8 encoding of `c`.
pub(crate) fn encode_char(c: char) -> (r: Vec<u8>)
    ensures
        r@ == encode_utf8(seq![c]),
{
    let v: u32 = c as u32;
    proof {
        char_is_scalar(c);
        assert(seq![c].drop_first() =~= Seq::<char>::empty());
        assert(seq![c][0] == c);
        reveal_with_fuel(encode_utf8, 2);
        assert(encode_utf8(Seq::<char>::empty()) =~= Seq::<u8>::empty());
        assert(encode_utf8(seq![c]) =~= encode_scalar(v));
    }
    let mut r: Vec<u8> = Vec::new();
    if v <= 0x7F {
        r.push((v & 0x7F) as u8);
    } else if v <= 0x7FF {
        r.push(0xC0 | ((v >> 6) & 0x1F) as u8);
        r.push(0x80 | (v & 0x3F) as u8);
    } else if v <= 0xFFFF {
        r.push(0xE0 | ((v >> 12) & 0x0F) as u8);
        r.push(0x80 | ((v >> 6) & 0x3F) as u8);
        r.push(0x80 | (v & 0x3F) as u8);
    } else {
        r.push(0xF0 | ((v >> 18) & 0x7) as u8);
        r.push(0x80 | ((v >> 12) & 0x3F) as u8);
        r.push(0x80 | ((v >> 6) & 0x3F) as u8);
        r.push(0x80 | (v & 0x3F) as u8);
    }
    assert(r@ =~= encode_scalar(v));
    r
}

/// The byte length of the scalar whose leading byte is `b`.
fn scalar_len(b: u8) -> (r: usize)
    ensures
        r as int == length_of_first_codepoint(seq![b]),
{
    if b <= 0x7F {
        1
    } else if b >= 0xC0 && b <= 0xDF {
        2
    } else if b >= 0xE0 && b <= 0xEF {
        3
    } else {
        4
    }
}

/// Inserting a scalar at a char boundary keeps UTF-8 valid.
pub proof fn lemma_insert_valid(b: Seq<u8>, i: int, c: char)
    requires
        valid_utf8(b),
        is_char_boundary(b, i),
    ensures
        valid_utf8(insert_scalar(b, i, c)),
{
    valid_utf8_split(b, i);
    encode_utf8_valid_utf8(seq![c]);
    valid_utf8_concat(b.subrange(0, i), encode_utf8(seq![c]));
    valid_utf8_concat(b.subrange(0, i) + encode_utf8(seq![c]), b.subrange(i, b.len() as int));
}

/// Removing the scalar at a char boundary keeps UTF-8 valid.
pub proof fn lemma_remove_valid(b: Seq<u8>, i: int)
    requires
        valid_utf8(b),
        is_char_boundary(b, i),
        0 <= i < b.len(),
    ensures
        valid_utf8(remove_scalar(b, i)),
        0 < length_of_first_scalar(b.subrange(i, b.len() as int)) <= b.len() - i,
{
    valid_utf8_split(b, i);
    let s = b.subrange(i, b.len() as int);
    assert(valid_first_scalar(s));
    assert(valid_utf8(pop_first_scalar(s)));
    let l = length_of_first_scalar(s);
    assert(pop_first_scalar(s) =~= b.subrange(i + l, b.len() as int));
    valid_utf8_concat(b.subrange(0, i), b.subrange(i + l, b.len() as int));
}

/// Splitting valid UTF-8 at a char boundary leaves two valid halves.
proof fn lemma_split_valid(b: Seq<u8>, i: int)
    requires
        valid_utf8(b),
        is_char_boundary(b, i),
    ensures
        valid_utf8(b.subrange(0, i)),
        valid_utf8(b.subrange(i, b.len() as int)),
        0 <= i <= b.len(),
{
    valid_utf8_split(b, i);
    if i < 0 || i > b.len() {
        assert(!is_char_boundary(b, i));
    }
}

impl Buffer {
    /// The bytes of each line.
    pub open spec fn line_bytes(&self) -> Seq<Seq<u8>> {
        line_views(self.lines@)
    }

    /// The lines as bytes, and the cursor.
    pub open spec fn state(&self) -> BufferState {
        BufferState {
            lines: self.line_bytes(),
            row: self.cursor_row as int,
            col: self.cursor_col as int,
        }
    }

    /// At least one line, and the cursor on a line and within it.
    pub open spec fn wf(&self) -> bool {
        &&& 0 < self.lines@.len()
        &&& self.cursor_row < self.lines@.len()
        &&& self.cursor_col <= self.line_bytes()[self.cursor_row as int].len()
    }

    /// The number of lines and every line's length fit an `i64`.
    pub open spec fn fits_i64(&self) -> bool {
        &&& self.lines@.len() <= i64::MAX
        &&& forall|i: int| 0 <= i < self.lines@.len() ==> self.line_bytes()[i].len() <= i64::MAX
    }

    /// The cursor column is a char boundary of its line.
    pub open spec fn cursor_on_boundary(&self) -> bool {
        is_char_boundary(self.line_bytes()[self.cursor_row as int], self.cursor_col as int)
    }

    /// One empty line, cursor at its start.
    pub fn empty() -> (b: Buffer)
        ensures
            b.line_bytes() == seq![Seq::<u8>::empty()],
            b.cursor_row == 0,
            b.cursor_col == 0,
            b.wf(),
    {
        let mut lines: Vec<String> = Vec::new();
        lines.push(String::new());
        let b = Buffer { lines, cursor_row: 0, cursor_col: 0 };
        proof {
            assert(encode_utf8(Seq::<char>::empty()) =~= Seq::<u8>::empty());
            assert(b.line_bytes() =~= seq![Seq::<u8>::empty()]);
        }
        b
    }

    /// A buffer holding a stored body (`body_lines`), cursor at the start.
    #[verifier::rlimit(30)]
    pub fn from_body(body: &str) -> (b: Buffer)
        ensures
            b.line_bytes() == body_lines(encode_utf8(body@)),
            b.cursor_row == 0,
            b.cursor_col == 0,
            b.wf(),
    {
        let bytes = body.as_bytes();
        let ghost bb = bytes@;
        proof {
            lemma_str_valid(body@);
        }
        let nl: [u8; 1] = [10];
        assert(nl@ =~= seq![10u8]);
        let n = bytes.len();
        let mut lines: Vec<String> = Vec::new();
        let mut pos: usize = 0;
        assert(line_views(lines@) =~= Seq::<Seq<u8>>::empty());
        loop
            invariant_except_break
                pos <= n,
                n == bb.len(),
                bb == bytes@,
                nl@ == seq![10u8],
                valid_utf8(bb),
                pos == 0 || (pos <= n && bb[pos - 1] == 10u8),
                line_views(lines@) + split_from(bb, pos as int) == split_from(bb, 0),
            ensures
                line_views(lines@) == split_from(bb, 0),
                bb == bytes@,
            decreases n - pos,
        {
            match find(bytes, nl.as_slice(), pos) {
                Some(k) => {
                    proof {
                        lemma_find_from(bb, seq![10u8], pos as int);
                        assert(bb.subrange(k as int, k + 1)[0] == 10u8);
                        lemma_valid_piece(bb, pos as int, k as int);
                    }
                    let piece = string_of(copy_range(bytes, pos, k));
                    let ghost before = lines@;
                    lines.push(piece);
                    proof {
                        assert(line_views(lines@) =~= line_views(before).push(bb.subrange(pos as int, k as int)));
                        assert(split_from(bb, pos as int) =~= seq![bb.subrange(pos as int, k as int)] + split_from(bb, k + 1));
                        assert(line_views(lines@) + split_from(bb, k + 1) =~= line_views(before) + split_from(bb, pos as int));
                    }
                    pos = k + 1;
                },
                None => {
                    proof {
                        lemma_valid_piece(bb, pos as int, n as int);
                    }
                    let piece = string_of(copy_range(bytes, pos, n));
                    let ghost before = lines@;
                    lines.push(piece);
                    proof {
                        assert(line_views(lines@) =~= line_views(before).push(bb.subrange(pos as int, n as int)));
                        assert(line_views(lines@) =~= split_from(bb, 0));
                    }
                    break;
                },
            }
        }
        let ghost pieces = line_views(lines@);
        proof {
            if lines@.len() > 0 {
                assert(pieces.last() == encode_utf8(lines@.last()@));
            }
        }
        let last_empty = lines.len() > 0 && lines[lines.len() - 1].as_str().as_bytes().len() == 0;
        if last_empty {
            let ghost before = lines@;
            lines.pop();
            proof {
                assert(line_views(lines@) =~= line_views(before).drop_last());
            }
        }
        if lines.len() == 0 {
            lines.push(String::new());
            proof {
                assert(encode_utf8(Seq::<char>::empty()) =~= Seq::<u8>::empty());
                assert(line_views(lines@) =~= seq![Seq::<u8>::empty()]);
            }
        }
        Buffer { lines, cursor_row: 0, cursor_col: 0 }
    }

    /// The byte length of the cursor's line.
    pub fn line_len(&self) -> (r: usize)
        requires
            self.cursor_row < self.lines@.len(),
        ensures
            r == self.line_bytes()[self.cursor_row as int].len(),
    {
        proof {
            assert(self.line_bytes()[self.cursor_row as int] == encode_utf8(
                self.lines@[self.cursor_row as int]@,
            ));
        }
        self.lines[self.cursor_row].as_str().as_bytes().len()
    }
}

impl Buffer {
    /// The bytes of line `row`, which are valid UTF-8.
    pub(crate) fn line_at(&self, row: usize) -> (r: Vec<u8>)
        requires
            row < self.lines@.len(),
        ensures
            r@ == self.line_bytes()[row as int],
            valid_utf8(r@),
    {
        let b = self.lines[row].as_str().as_bytes();
        proof {
            lemma_str_valid(self.lines@[row as int]@);
        }
        let n = b.len();
        let r = copy_range(b, 0, n);
        assert(b@.subrange(0, n as int) =~= b@);
        r
    }

    /// Replaces line `row` with `bytes`, which are valid UTF-8.
    fn set_line(&mut self, row: usize, bytes: Vec<u8>)
        requires
            row < old(self).lines@.len(),
            valid_utf8(bytes@),
        ensures
            final(self).line_bytes() == old(self).line_bytes().update(row as int, bytes@),
            final(self).lines@.len() == old(self).lines@.len(),
            final(self).cursor_row == old(self).cursor_row,
            final(self).cursor_col == old(self).cursor_col,
    {
        let s = string_of(bytes);
        let ghost before = self.lines@;
        self.lines.set(row, s);
        proof {
            assert(line_views(self.lines@) =~= line_views(before).update(row as int, bytes@));
        }
    }

    /// Inserts `c` at the cursor. A line break splits the line and moves the cursor to the
    /// start of the new line below; any other character moves the cursor one byte right.
    #[verifier::rlimit(30)]
    pub fn insert_char(&mut self, c: char)
        requires
            old(self).wf(),
            old(self).cursor_on_boundary(),
        ensures
            final(self).state() == inserted(old(self).state(), c),
            final(self).wf(),
    {
        let row = self.cursor_row;
        let col = self.cursor_col;
        let line = self.line_at(row);
        let n = line.len();
        if c == '\n' {
            proof {
                lemma_split_valid(line@, col as int);
            }
            let left = copy_range(line.as_slice(), 0, col);
            let right = copy_range(line.as_slice(), col, n);
            let ghost mid = self.line_bytes().update(row as int, left@);
            self.set_line(row, left);
            let rs = string_of(right);
            let ghost before = self.lines@;
            let count = self.lines.len();
            assert(row < count);
            self.lines.insert(row + 1, rs);
            proof {
                assert(line_views(self.lines@) =~= line_views(before).insert(row + 1, line@.subrange(col as int, n as int)));
            }
            self.cursor_row = row + 1;
            self.cursor_col = 0;
        } else {
            proof {
                lemma_insert_valid(line@, col as int, c);
                lemma_split_valid(line@, col as int);
            }
            let enc = encode_char(c);
            let mut nl = copy_range(line.as_slice(), 0, col);
            push_all(&mut nl, enc.as_slice());
            push_range(&mut nl, line.as_slice(), col, n);
            assert(nl@ =~= insert_scalar(line@, col as int, c));
            proof {
                encode_utf8_first_scalar(seq![c]);
            }
            let newlen = nl.len();
            assert(col < newlen);
            self.set_line(row, nl);
            self.cursor_col = col + 1;
            proof {
                encode_utf8_first_scalar(seq![c]);
                assert(encode_utf8(seq![c]).len() >= 1);
            }
        }
    }

    /// Deletes the character before the cursor; at the start of a line, joins it onto the line
    /// above with the cursor where the two meet.
    #[verifier::rlimit(30)]
    pub fn backspace(&mut self)
        requires
            old(self).wf(),
            old(self).cursor_col > 0 ==> is_char_boundary(
                old(self).line_bytes()[old(self).cursor_row as int],
                old(self).cursor_col - 1,
            ),
        ensures
            final(self).state() == backspaced(old(self).state()),
            final(self).wf(),
    {
        let row = self.cursor_row;
        let col = self.cursor_col;
        if col > 0 {
            let line = self.line_at(row);
            let n = line.len();
            proof {
                lemma_remove_valid(line@, col - 1);
            }
            let w = scalar_len(line[col - 1]);
            proof {
                let s = line@.subrange(col - 1, n as int);
                assert(s[0] == line@[col - 1]);
                assert(w == length_of_first_scalar(s));
            }
            let mut nl = copy_range(line.as_slice(), 0, col - 1);
            push_range(&mut nl, line.as_slice(), col - 1 + w, n);
            assert(nl@ =~= remove_scalar(line@, col - 1));
            self.set_line(row, nl);
            self.cursor_col = col - 1;
        } else if row > 0 {
            let prev = self.line_at(row - 1);
            let cur = self.line_at(row);
            let prev_len = prev.len();
            let mut joined_line = prev;
            push_all(&mut joined_line, cur.as_slice());
            proof {
                valid_utf8_concat(self.line_bytes()[row - 1], self.line_bytes()[row as int]);
            }
            let ghost before = self.line_bytes();
            self.set_line(row - 1, joined_line);
            let ghost mid = self.lines@;
            self.lines.remove(row);
            proof {
                assert(line_views(self.lines@) =~= line_views(mid).remove(row as int));
            }
            self.cursor_row = row - 1;
            self.cursor_col = prev_len;
        }
    }

    /// Deletes the character at the cursor; at the end of a line, joins the next line onto it.
    #[verifier::rlimit(30)]
    pub fn delete(&mut self)
        requires
            old(self).wf(),
            old(self).cursor_col < old(self).line_bytes()[old(self).cursor_row as int].len()
                ==> old(self).cursor_on_boundary(),
        ensures
            final(self).state() == deleted(old(self).state()),
            final(self).wf(),
    {
        let row = self.cursor_row;
        let col = self.cursor_col;
        if col < self.line_len() {
            let line = self.line_at(row);
            let n = line.len();
            proof {
                lemma_remove_valid(line@, col as int);
            }
            let w = scalar_len(line[col]);
            proof {
                let s = line@.subrange(col as int, n as int);
                assert(s[0] == line@[col as int]);
                assert(w == length_of_first_scalar(s));
            }
            let mut nl = copy_range(line.as_slice(), 0, col);
            push_range(&mut nl, line.as_slice(), col + w, n);
            assert(nl@ =~= remove_scalar(line@, col as int));
            self.set_line(row, nl);
        } else if row < self.lines.len() - 1 {
            let cur = self.line_at(row);
            let next = self.line_at(row + 1);
            let mut joined_line = cur;
            push_all(&mut joined_line, next.as_slice());
            proof {
                valid_utf8_concat(self.line_bytes()[row as int], self.line_bytes()[row + 1]);
            }
            self.set_line(row, joined_line);
            let ghost mid = self.lines@;
            self.lines.remove(row + 1);
            proof {
                assert(line_views(self.lines@) =~= line_views(mid).remove(row + 1));
            }
        }
    }

    /// Moves the cursor `dr` rows and `dc` bytes, each clamped to the buffer: the row to an
    /// existing line, then the column to that line's length.
    #[verifier::rlimit(30)]
    pub fn move_cursor(&mut self, dr: i64, dc: i64)
        requires
            old(self).wf(),
            old(self).fits_i64(),
            i64::MIN <= old(self).cursor_row + dr <= i64::MAX,
            i64::MIN <= old(self).cursor_col + dc <= i64::MAX,
        ensures
            final(self).lines == old(self).lines,
            final(self).cursor_row == clamp(old(self).cursor_row + dr, 0, old(self).lines@.len() - 1),
            final(self).cursor_col == clamp(
                old(self).cursor_col + dc,
                0,
                old(self).line_bytes()[final(self).cursor_row as int].len() as int,
            ),
            final(self).wf(),
    {
        let rows = self.lines.len() as i64;
        let r = self.cursor_row as i64 + dr;
        let r = if r < 0 {
            0
        } else if r > rows - 1 {
            rows - 1
        } else {
            r
        };
        self.cursor_row = r as usize;
        let len = self.line_len() as i64;
        proof {
            assert(self.line_bytes()[self.cursor_row as int].len() <= i64::MAX);
        }
        let c = self.cursor_col as i64 + dc;
        let c = if c < 0 {
            0
        } else if c > len {
            len
        } else {
            c
        };
        self.cursor_col = c as usize;
    }

    /// Moves the cursor to the start of its line.
    pub fn home(&mut self)
        ensures
            final(self).lines == old(self).lines,
            final(self).cursor_row == old(self).cursor_row,
            final(self).cursor_col == 0,
    {
        self.cursor_col = 0;
    }

    /// Moves the cursor to the end of its line.
    pub fn end(&mut self)
        requires
            old(self).cursor_row < old(self).lines@.len(),
        ensures
            final(self).lines == old(self).lines,
            final(self).cursor_row == old(self).cursor_row,
            final(self).cursor_col == old(self).line_bytes()[old(self).cursor_row as int].len(),
    {
        self.cursor_col = self.line_len();
    }

    /// The body the buffer is stored as (`body_of`).
    #[verifier::rlimit(30)]
    pub fn body_string(&self) -> (r: String)
        ensures
            encode_utf8(r@) == body_of(self.line_bytes()),
    {
        let mut out: Vec<u8> = Vec::new();
        let mut i: usize = 0;
        let n = self.lines.len();
        assert(valid_utf8(Seq::<u8>::empty())) by {
            reveal_with_fuel(valid_utf8, 1);
        }
        assert(valid_utf8(seq![10u8])) by {
            reveal_with_fuel(valid_utf8, 2);
        }
        while i < n
            invariant
                i <= n,
                n == self.lines@.len(),
                out@ == joined(self.line_bytes().subrange(0, i as int)),
                valid_utf8(out@),
                valid_utf8(seq![10u8]),
            decreases n - i,
        {
            let line = self.line_at(i);
            let ghost before = out@;
            if i > 0 {
                out.push(10u8);
            }
            push_all(&mut out, line.as_slice());
            proof {
                let ls = self.line_bytes().subrange(0, i + 1);
                assert(ls.drop_last() =~= self.line_bytes().subrange(0, i as int));
                if i > 0 {
                    valid_utf8_concat(before, seq![10u8]);
                    valid_utf8_concat(before + seq![10u8], line@);
                    assert(out@ =~= before + seq![10u8] + line@);
                } else {
                    valid_utf8_concat(before, line@);
                    assert(ls =~= seq![line@]);
                    assert(out@ =~= line@);
                }
            }
            i = i + 1;
        }
        proof {
            assert(self.line_bytes().subrange(0, n as int) =~= self.line_bytes());
        }
        if out.len() > 0 {
            let ghost before = out@;
            proof {
                valid_utf8_concat(out@, seq![10u8]);
            }
            out.push(10u8);
            assert(out@ =~= before + seq![10u8]);
        }
        string_of(out)
    }
}

/// `v` limited to `[lo, hi]`.
pub open spec fn clamp(v: int, lo: int, hi: int) -> int {
    if v < lo {
        lo
    } else if v > hi {
        hi
    } else {
        v
    }
}

/// A piece of valid UTF-8 between line breaks is valid UTF-8.
proof fn lemma_valid_piece(b: Seq<u8>, i: int, j: int)
    requires
        valid_utf8(b),
        0 <= i <= j <= b.len(),
        i == 0 || b[i - 1] == 10u8,
        j == b.len() || b[j] == 10u8,
    ensures
        valid_utf8(b.subrange(i, j)),
{
    crate::unicode::lemma_valid_subrange(b, i, j);
}

} // verus!
