//! What each edit of the text buffer does to the lines and the cursor: typing puts one
//! character in at the cursor, Enter splits the line there, Backspace and Delete take out one
//! character or join two lines, and nothing else changes.
use vstd::prelude::*;
use vstd::utf8::*;
use crate::buffer::{backspaced, deleted, inserted, lemma_remove_valid, BufferState};
use crate::bytes::{find_from, lemma_find_from};

verus! {

/// The cursor is on a line and within it.
pub open spec fn cursor_in(s: BufferState) -> bool {
    &&& 0 <= s.row < s.lines.len()
    &&& 0 <= s.col <= s.lines[s.row].len()
}

/// Every line but `row` is the same in `a` and `b`, which have as many lines.
pub open spec fn others_same(a: Seq<Seq<u8>>, b: Seq<Seq<u8>>, row: int) -> bool {
    &&& a.len() == b.len()
    &&& forall|i: int| 0 <= i < a.len() && i != row ==> a[i] == b[i]
}

/// Delete inside a line takes out exactly the one character that starts at the cursor: the
/// line keeps its bytes before the cursor, loses that character's bytes (one to four), and keeps
/// all the bytes after it; the cursor and the other lines stay.
pub proof fn law_delete_removes_one_char(s: BufferState)
    requires
        cursor_in(s),
        s.col < s.lines[s.row].len(),
        valid_utf8(s.lines[s.row]),
        is_char_boundary(s.lines[s.row], s.col),
    ensures
        ({
            let line = s.lines[s.row];
            let d = deleted(s);
            let nl = d.lines[s.row];
            let w = length_of_first_scalar(line.subrange(s.col, line.len() as int));
            &&& 0 < w <= line.len() - s.col
            &&& valid_first_scalar(line.subrange(s.col, line.len() as int))
            &&& d.row == s.row
            &&& d.col == s.col
            &&& others_same(d.lines, s.lines, s.row)
            &&& nl.len() == line.len() - w
            &&& nl.subrange(0, s.col) == line.subrange(0, s.col)
            &&& nl.subrange(s.col, nl.len() as int) == line.subrange(s.col + w, line.len() as int)
        }),
{
    let line = s.lines[s.row];
    lemma_remove_valid(line, s.col);
    valid_utf8_split(line, s.col);
    let d = deleted(s);
    let nl = d.lines[s.row];
    assert(nl.subrange(0, s.col) =~= line.subrange(0, s.col));
    let w = length_of_first_scalar(line.subrange(s.col, line.len() as int));
    assert(nl.subrange(s.col, nl.len() as int) =~= line.subrange(s.col + w, line.len() as int));
}

/// Delete at the end of a line that has one below joins that line onto it: the lines after
/// move up by one, the cursor stays.
pub proof fn law_delete_joins_next_line(s: BufferState)
    requires
        cursor_in(s),
        s.col == s.lines[s.row].len(),
        s.row + 1 < s.lines.len(),
    ensures
        ({
            let d = deleted(s);
            &&& d.row == s.row
            &&& d.col == s.col
            &&& d.lines.len() == s.lines.len() - 1
            &&& d.lines[s.row] == s.lines[s.row] + s.lines[s.row + 1]
            &&& forall|i: int| 0 <= i < s.row ==> d.lines[i] == s.lines[i]
            &&& forall|i: int| s.row < i < d.lines.len() ==> d.lines[i] == s.lines[i + 1]
        }),
{
}

/// Delete at the very end of the text changes nothing.
pub proof fn law_delete_at_end_keeps_text(s: BufferState)
    requires
        cursor_in(s),
        s.col == s.lines[s.row].len(),
        s.row + 1 == s.lines.len(),
    ensures
        deleted(s) == s,
{
}

/// Backspace inside a line takes out exactly the one character that starts just before the
/// cursor, and the cursor moves back one byte onto where it stood; the other lines stay.
pub proof fn law_backspace_removes_one_char(s: BufferState)
    requires
        cursor_in(s),
        s.col > 0,
        valid_utf8(s.lines[s.row]),
        is_char_boundary(s.lines[s.row], s.col - 1),
    ensures
        ({
            let line = s.lines[s.row];
            let d = backspaced(s);
            let nl = d.lines[s.row];
            let w = length_of_first_scalar(line.subrange(s.col - 1, line.len() as int));
            &&& 0 < w <= line.len() - s.col + 1
            &&& d.row == s.row
            &&& d.col == s.col - 1
            &&& others_same(d.lines, s.lines, s.row)
            &&& nl.len() == line.len() - w
            &&& nl.subrange(0, s.col - 1) == line.subrange(0, s.col - 1)
            &&& nl.subrange(s.col - 1, nl.len() as int) == line.subrange(
                s.col - 1 + w,
                line.len() as int,
            )
        }),
{
    let line = s.lines[s.row];
    lemma_remove_valid(line, s.col - 1);
    let d = backspaced(s);
    let nl = d.lines[s.row];
    let w = length_of_first_scalar(line.subrange(s.col - 1, line.len() as int));
    assert(nl.subrange(0, s.col - 1) =~= line.subrange(0, s.col - 1));
    assert(nl.subrange(s.col - 1, nl.len() as int) =~= line.subrange(
        s.col - 1 + w,
        line.len() as int,
    ));
}

/// Backspace at the start of a line below another joins it onto the line above, the cursor
/// where they meet; the lines after move up by one.
pub proof fn law_backspace_joins_previous_line(s: BufferState)
    requires
        cursor_in(s),
        s.col == 0,
        s.row > 0,
    ensures
        ({
            let d = backspaced(s);
            &&& d.row == s.row - 1
            &&& d.col == s.lines[s.row - 1].len()
            &&& d.lines.len() == s.lines.len() - 1
            &&& d.lines[s.row - 1] == s.lines[s.row - 1] + s.lines[s.row]
            &&& forall|i: int| 0 <= i < s.row - 1 ==> d.lines[i] == s.lines[i]
            &&& forall|i: int| s.row <= i < d.lines.len() ==> d.lines[i] == s.lines[i + 1]
        }),
{
}

/// Backspace at the very start of the text changes nothing.
pub proof fn law_backspace_at_start_keeps_text(s: BufferState)
    requires
        cursor_in(s),
        s.col == 0,
        s.row == 0,
    ensures
        backspaced(s) == s,
{
}

/// Typing a character other than a line break puts its bytes in at the cursor, keeping the
/// bytes before and after, and moves the cursor one byte right; the other lines stay.
pub proof fn law_typing_inserts_the_char(s: BufferState, c: char)
    requires
        cursor_in(s),
        c != '\n',
    ensures
        ({
            let line = s.lines[s.row];
            let d = inserted(s, c);
            let nl = d.lines[s.row];
            let e = encode_utf8(seq![c]);
            &&& d.row == s.row
            &&& d.col == s.col + 1
            &&& others_same(d.lines, s.lines, s.row)
            &&& nl.len() == line.len() + e.len()
            &&& nl.subrange(0, s.col) == line.subrange(0, s.col)
            &&& nl.subrange(s.col, s.col + e.len()) == e
            &&& nl.subrange(s.col + e.len(), nl.len() as int) == line.subrange(
                s.col,
                line.len() as int,
            )
        }),
{
    let line = s.lines[s.row];
    let d = inserted(s, c);
    let nl = d.lines[s.row];
    let e = encode_utf8(seq![c]);
    assert(nl.subrange(0, s.col) =~= line.subrange(0, s.col));
    assert(nl.subrange(s.col, s.col + e.len()) =~= e);
    assert(nl.subrange(s.col + e.len(), nl.len() as int) =~= line.subrange(
        s.col,
        line.len() as int,
    ));
}

/// Enter splits the line at the cursor: the part before stays, the part after becomes a new
/// line below it, the cursor goes to that new line's start, and the lines after move down by
/// one.
pub proof fn law_enter_splits_the_line(s: BufferState)
    requires
        cursor_in(s),
    ensures
        ({
            let line = s.lines[s.row];
            let d = inserted(s, '\n');
            &&& d.row == s.row + 1
            &&& d.col == 0
            &&& d.lines.len() == s.lines.len() + 1
            &&& d.lines[s.row] == line.subrange(0, s.col)
            &&& d.lines[s.row + 1] == line.subrange(s.col, line.len() as int)
            &&& d.lines[s.row] + d.lines[s.row + 1] == line
            &&& forall|i: int| 0 <= i < s.row ==> d.lines[i] == s.lines[i]
            &&& forall|i: int| s.row + 1 < i < d.lines.len() ==> d.lines[i] == s.lines[i - 1]
        }),
{
    let line = s.lines[s.row];
    assert(line.subrange(0, s.col) + line.subrange(s.col, line.len() as int) =~= line);
}

/// Storing lines joins them with a line break after each line; storing one more line adds that
/// line and its line break at the end (an empty text stores as nothing).
pub proof fn law_stored_lines_are_joined(ls: Seq<Seq<u8>>, l: Seq<u8>)
    requires
        ls.len() > 0,
    ensures
        crate::buffer::joined(ls.push(l)) == crate::buffer::joined(ls) + seq![10u8] + l,
        crate::buffer::joined(seq![l]) == l,
        crate::buffer::body_of(seq![l]) == (if l.len() == 0 {
            l
        } else {
            l + seq![10u8]
        }),
        crate::buffer::body_of(ls.push(l)) == crate::buffer::joined(ls) + seq![10u8] + l + seq![
            10u8,
        ],
{
    assert(ls.push(l).drop_last() =~= ls);
    assert(ls.push(l).last() == l);
    let j = crate::buffer::joined(ls) + seq![10u8] + l;
    assert(j.len() > 0);
    assert(j.push(10u8) =~= j + seq![10u8]);
    assert(l.push(10u8) =~= l + seq![10u8]);
}

/// Opening a stored body splits it at its line breaks: a body of lines that each end with a
/// line break opens as those lines.
pub proof fn law_body_opens_as_lines(l: Seq<u8>, rest: Seq<u8>)
    requires
        forall|i: int| 0 <= i < l.len() ==> l[i] != 10u8,
        l.len() > 0 || rest.len() > 0,
    ensures
        crate::buffer::body_lines(l + seq![10u8] + rest) == seq![l] + (if rest.len() == 0 {
            Seq::<Seq<u8>>::empty()
        } else {
            crate::buffer::body_lines(rest)
        }),
{
    let b = l + seq![10u8] + rest;
    crate::buffer_laws::lemma_split_concat(l, rest);
    let sr = crate::buffer::split_from(rest, 0);
    let pieces = crate::buffer::split_from(b, 0);
    assert(pieces == seq![l] + sr);
    lemma_find_from(rest, seq![10u8], 0);
    if rest.len() == 0 {
        assert(find_from(rest, seq![10u8], 0) is None);
        assert(rest.subrange(0, 0) =~= rest);
        assert(sr =~= seq![rest]);
        assert(pieces.drop_last() =~= seq![l]);
    } else {
        match find_from(rest, seq![10u8], 0) {
            Some(k) => {
                let tail = crate::buffer::split_from(rest, k + 1);
                assert(sr == seq![rest.subrange(0, k)] + tail);
                crate::buffer_laws::lemma_split_nonempty(rest, k + 1);
                assert(sr.len() >= 2);
            },
            None => {
                assert(sr =~= seq![rest.subrange(0, rest.len() as int)]);
                assert(rest.subrange(0, rest.len() as int) =~= rest);
            },
        }
        assert(sr.len() > 0);
        assert(pieces.last() == sr.last());
        if sr.last().len() == 0 {
            assert(pieces.drop_last() =~= seq![l] + sr.drop_last());
            assert(sr.drop_last().len() > 0);
        }
    }
}

} // verus!
