//! What the text buffer keeps across calls: stored bodies survive opening and storing, and a
//! backspace takes back what typing put in.
use vstd::prelude::*;
use vstd::utf8::*;
use crate::bytes::{find_from, lemma_find_from, occurs_at};
use crate::buffer::{
    backspaced, body_lines, body_of, inserted, insert_scalar, joined, remove_scalar, split_from,
    BufferState,
};

verus! {

broadcast use {is_char_boundary_iff_is_leading_byte, is_char_boundary_start_end_of_seq};

/// `x` holds no `'\n'`.
pub open spec fn no_newline(x: Seq<u8>) -> bool {
    forall|i: int| 0 <= i < x.len() ==> x[i] != 10u8
}

proof fn lemma_find_none_no_newline(x: Seq<u8>, i: int)
    requires
        no_newline(x),
        0 <= i,
    ensures
        find_from(x, seq![10u8], i) is None,
{
    lemma_find_from(x, seq![10u8], i);
    if let Some(k) = find_from(x, seq![10u8], i) {
        assert(x.subrange(k, k + 1)[0] == 10u8);
        assert(x[k] == 10u8);
    }
}

proof fn lemma_split_shift(pre: Seq<u8>, y: Seq<u8>, i: int)
    requires
        0 <= i <= y.len(),
    ensures
        split_from(pre + y, pre.len() + i) == split_from(y, i),
    decreases y.len() - i,
{
    let b = pre + y;
    crate::seq_facts::lemma_find_shift(pre, y, seq![10u8], i);
    lemma_find_from(y, seq![10u8], i);
    match find_from(y, seq![10u8], i) {
        Some(k) => {
            assert(b.subrange(pre.len() + i, k + pre.len()) =~= y.subrange(i, k));
            lemma_split_shift(pre, y, k + 1);
            assert(pre.len() + (k + 1) == k + pre.len() + 1);
        },
        None => {
            assert(b.subrange(pre.len() + i, b.len() as int) =~= y.subrange(i, y.len() as int));
        },
    }
}

/// Splitting `x + "\n" + y`, with no line break in `x`, gives `x` then the pieces of `y`.
pub proof fn lemma_split_concat(x: Seq<u8>, y: Seq<u8>)
    requires
        no_newline(x),
    ensures
        split_from(x + seq![10u8] + y, 0) == seq![x] + split_from(y, 0),
{
    let b = x + seq![10u8] + y;
    lemma_find_none_no_newline(x, 0);
    assert(find_from(b, seq![10u8], 0) == Some(x.len() as int)) by {
        lemma_find_from(b, seq![10u8], 0);
        assert(b.subrange(x.len() as int, x.len() + 1int) =~= seq![10u8]);
        assert(occurs_at(b, seq![10u8], x.len() as int));
        if let Some(k) = find_from(b, seq![10u8], 0) {
            if k < x.len() {
                assert(b.subrange(k, k + 1)[0] == x[k]);
            }
        }
    }
    assert(b.subrange(0, x.len() as int) =~= x);
    lemma_split_shift(x + seq![10u8], y, 0);
}

/// Splitting from any point gives at least one piece.
pub proof fn lemma_split_nonempty(b: Seq<u8>, pos: int)
    requires
        0 <= pos <= b.len(),
    ensures
        split_from(b, pos).len() > 0,
    decreases b.len() - pos,
{
    lemma_find_from(b, seq![10u8], pos);
    if let Some(k) = find_from(b, seq![10u8], pos) {
        lemma_split_nonempty(b, k + 1);
    }
}

pub proof fn lemma_split_single(x: Seq<u8>)
    requires
        no_newline(x),
    ensures
        split_from(x, 0) == seq![x],
{
    lemma_find_none_no_newline(x, 0);
    assert(x.subrange(0, x.len() as int) =~= x);
}

/// `joined` of a sequence led by `x`.
proof fn lemma_joined_prepend(x: Seq<u8>, rest: Seq<Seq<u8>>)
    requires
        rest.len() > 0,
    ensures
        joined(seq![x] + rest) == x + seq![10u8] + joined(rest),
    decreases rest.len(),
{
    let s = seq![x] + rest;
    if rest.len() == 1 {
        assert(s.drop_last() =~= seq![x]);
        assert(joined(seq![x]) == x);
        assert(joined(rest) == rest[0]);
        assert(s.last() == rest[0]);
        assert(joined(s) == joined(s.drop_last()) + seq![10u8] + s.last());
    } else {
        assert(s.drop_last() =~= seq![x] + rest.drop_last());
        lemma_joined_prepend(x, rest.drop_last());
        assert(s.last() == rest.last());
        assert(joined(s) == joined(s.drop_last()) + seq![10u8] + s.last());
        assert(joined(rest) == joined(rest.drop_last()) + seq![10u8] + rest.last());
        assert(joined(s) =~= x + seq![10u8] + joined(rest));
    }
}

/// Splitting the joined lines (and an optional final `'\n'`) gives the lines back.
proof fn lemma_split_joined(ls: Seq<Seq<u8>>, nl: bool)
    requires
        ls.len() > 0,
        forall|i: int| 0 <= i < ls.len() ==> no_newline(#[trigger] ls[i]),
    ensures
        split_from(joined(ls) + (if nl { seq![10u8] } else { Seq::<u8>::empty() }), 0) == (if nl {
            ls.push(Seq::<u8>::empty())
        } else {
            ls
        }),
    decreases ls.len(),
{
    let tail = if nl {
        seq![10u8]
    } else {
        Seq::<u8>::empty()
    };
    if ls.len() == 1 {
        assert(joined(ls) == ls[0]);
        assert(no_newline(ls[0]));
        if nl {
            lemma_split_concat(ls[0], Seq::<u8>::empty());
            assert(ls[0] + seq![10u8] + Seq::<u8>::empty() =~= joined(ls) + tail);
            assert(Seq::<u8>::empty().subrange(0, 0) =~= Seq::<u8>::empty());
            assert(split_from(Seq::<u8>::empty(), 0) =~= seq![Seq::<u8>::empty()]);
            assert(seq![ls[0]] + seq![Seq::<u8>::empty()] =~= ls.push(Seq::<u8>::empty()));
        } else {
            lemma_split_single(ls[0]);
            assert(joined(ls) + tail =~= ls[0]);
            assert(seq![ls[0]] =~= ls);
        }
    } else {
        let rest = ls.subrange(1, ls.len() as int);
        assert(ls =~= seq![ls[0]] + rest);
        lemma_joined_prepend(ls[0], rest);
        assert(no_newline(ls[0]));
        lemma_split_joined(rest, nl);
        lemma_split_concat(ls[0], joined(rest) + tail);
        assert(joined(ls) + tail =~= ls[0] + seq![10u8] + (joined(rest) + tail));
        if nl {
            assert(seq![ls[0]] + rest.push(Seq::<u8>::empty()) =~= ls.push(Seq::<u8>::empty()));
        } else {
            assert(seq![ls[0]] + rest =~= ls);
        }
    }
}

/// Joining the pieces of a byte string gives it back.
proof fn lemma_joined_split(b: Seq<u8>, pos: int)
    requires
        0 <= pos <= b.len(),
    ensures
        joined(split_from(b, pos)) == b.subrange(pos, b.len() as int),
        split_from(b, pos).len() > 0,
    decreases b.len() - pos,
{
    lemma_find_from(b, seq![10u8], pos);
    match find_from(b, seq![10u8], pos) {
        Some(k) => {
            assert(b.subrange(k, k + 1)[0] == 10u8);
            lemma_joined_split(b, k + 1);
            lemma_joined_prepend(b.subrange(pos, k), split_from(b, k + 1));
            assert(b.subrange(pos, b.len() as int) =~= b.subrange(pos, k) + seq![10u8]
                + b.subrange(k + 1, b.len() as int));
        },
        None => {},
    }
}

/// A stored body survives being opened in the buffer and stored again, when it is empty or
/// ends with a line break and is not a lone line break.
pub proof fn law_body_roundtrip(b: Seq<u8>)
    requires
        b.len() == 0 || (b.last() == 10u8 && b != seq![10u8]),
    ensures
        body_of(body_lines(b)) == b,
{
    let pieces = split_from(b, 0);
    lemma_joined_split(b, 0);
    assert(b.subrange(0, b.len() as int) =~= b);
    if b.len() == 0 {
        lemma_split_single(b);
        assert(body_lines(b) =~= seq![Seq::<u8>::empty()]);
    } else {
        let x = b.subrange(0, b.len() - 1);
        assert(b =~= x + seq![10u8] + Seq::<u8>::empty());
        let ghost lines = split_from(x, 0);
        lemma_joined_split(x, 0);
        assert(x.subrange(0, x.len() as int) =~= x);
        lemma_split_trailing(x);
        assert(pieces == lines.push(Seq::<u8>::empty()));
        assert(pieces.drop_last() =~= lines);
        assert(x.len() > 0);
        assert(body_lines(b) == lines);
        assert(joined(lines) == x);
        assert(body_of(lines) =~= x.push(10u8));
    }
}

pub proof fn lemma_split_trailing(x: Seq<u8>)
    ensures
        split_from(x + seq![10u8], 0) == split_from(x, 0).push(Seq::<u8>::empty()),
    decreases x.len(),
{
    lemma_split_trailing_from(x, 0);
}

#[verifier::rlimit(30)]
proof fn lemma_split_trailing_from(x: Seq<u8>, pos: int)
    requires
        0 <= pos <= x.len(),
    ensures
        split_from(x + seq![10u8], pos) == split_from(x, pos).push(Seq::<u8>::empty()),
    decreases x.len() - pos,
{
    let b = x + seq![10u8];
    lemma_find_from(x, seq![10u8], pos);
    lemma_find_from(b, seq![10u8], pos);
    match find_from(x, seq![10u8], pos) {
        Some(k) => {
            assert(x.subrange(k, k + 1)[0] == 10u8);
            assert(b.subrange(k, k + 1) =~= x.subrange(k, k + 1));
            assert(occurs_at(b, seq![10u8], k));
            lemma_find_before(x, b, pos, k);
            lemma_split_trailing_from(x, k + 1);
            assert(b.subrange(pos, k) =~= x.subrange(pos, k));
            assert(seq![x.subrange(pos, k)] + split_from(x, k + 1).push(Seq::<u8>::empty())
                =~= (seq![x.subrange(pos, k)] + split_from(x, k + 1)).push(Seq::<u8>::empty()));
        },
        None => {
            assert(b.subrange(x.len() as int, x.len() + 1int) =~= seq![10u8]);
            assert(occurs_at(b, seq![10u8], x.len() as int));
            assert forall|j: int| pos <= j < x.len() implies !occurs_at(b, seq![10u8], j) by {
                assert(b[j] == x[j]);
                assert(b.subrange(j, j + 1) =~= x.subrange(j, j + 1));
                assert(!occurs_at(x, seq![10u8], j));
            }
            crate::bytes::lemma_find_from_skip(b, seq![10u8], pos, x.len() as int);
            assert(b.subrange(pos, x.len() as int) =~= x.subrange(pos, x.len() as int));
            assert(b.subrange(x.len() + 1int, b.len() as int) =~= Seq::<u8>::empty());
            assert(split_from(b, x.len() + 1int) =~= seq![Seq::<u8>::empty()]);
        },
    }
}

proof fn lemma_find_before(x: Seq<u8>, b: Seq<u8>, pos: int, k: int)
    requires
        b == x + seq![10u8],
        0 <= pos <= k < x.len(),
        find_from(x, seq![10u8], pos) == Some(k),
        occurs_at(b, seq![10u8], k),
    ensures
        find_from(b, seq![10u8], pos) == Some(k),
{
    lemma_find_from(x, seq![10u8], pos);
    assert forall|j: int| pos <= j < k implies !occurs_at(b, seq![10u8], j) by {
        assert(b[j] == x[j]);
        assert(b.subrange(j, j + 1) =~= x.subrange(j, j + 1));
        assert(!occurs_at(x, seq![10u8], j));
    }
    crate::bytes::lemma_find_from_skip(b, seq![10u8], pos, k);
}

/// Lines without line breaks survive being stored and opened again.
pub proof fn law_lines_roundtrip(ls: Seq<Seq<u8>>)
    requires
        ls.len() > 0,
        forall|i: int| 0 <= i < ls.len() ==> no_newline(#[trigger] ls[i]),
    ensures
        body_lines(body_of(ls)) == ls,
{
    if joined(ls).len() == 0 {
        lemma_split_joined(ls, false);
        assert(joined(ls) + Seq::<u8>::empty() =~= joined(ls));
        if ls.len() > 1 {
            let rest = ls.subrange(1, ls.len() as int);
            assert(ls =~= seq![ls[0]] + rest);
            lemma_joined_prepend(ls[0], rest);
            assert(joined(ls).len() > 0);
        }
        assert(ls.len() == 1);
        assert(ls[0] == joined(ls));
        assert(ls =~= seq![Seq::<u8>::empty()]);
    } else {
        lemma_split_joined(ls, true);
        assert(body_of(ls) == joined(ls) + seq![10u8]);
        assert(ls.push(Seq::<u8>::empty()).drop_last() =~= ls);
    }
}

/// Line bytes that a buffer can hold: at least one line, the cursor within a line, each line
/// valid UTF-8.
pub open spec fn state_ok(s: BufferState) -> bool {
    &&& 0 < s.lines.len()
    &&& 0 <= s.row < s.lines.len()
    &&& 0 <= s.col <= s.lines[s.row].len()
    &&& forall|i: int| 0 <= i < s.lines.len() ==> valid_utf8(#[trigger] s.lines[i])
}

/// A backspace right after typing a character, at a char boundary, restores the buffer; and
/// the backspace is one the buffer accepts there.
#[verifier::rlimit(30)]
pub proof fn law_backspace_undoes_insert(s: BufferState, c: char)
    requires
        state_ok(s),
        is_char_boundary(s.lines[s.row], s.col),
    ensures
        backspaced(inserted(s, c)) == s,
        inserted(s, c).col > 0 ==> is_char_boundary(
            inserted(s, c).lines[inserted(s, c).row],
            inserted(s, c).col - 1,
        ),
{
    let line = s.lines[s.row];
    assert(valid_utf8(line));
    valid_utf8_split(line, s.col);
    if c == '\n' {
        let t = inserted(s, c);
        assert(t.lines[s.row] == line.subrange(0, s.col));
        assert(t.lines[s.row + 1] == line.subrange(s.col, line.len() as int));
        assert(line.subrange(0, s.col) + line.subrange(s.col, line.len() as int) =~= line);
        assert(backspaced(t).lines =~= s.lines);
    } else {
        let rest = line.subrange(s.col, line.len() as int);
        let e = encode_utf8(seq![c]);
        let l2 = insert_scalar(line, s.col, c);
        decode_utf8_encode_utf8(rest);
        let chars = seq![c] + decode_utf8(rest);
        assert(chars.drop_first() =~= decode_utf8(rest));
        assert(chars[0] == c);
        reveal_with_fuel(encode_utf8, 2);
        assert(encode_utf8(seq![c]) == encode_scalar(c as u32) + encode_utf8(Seq::<char>::empty()));
        assert(encode_utf8(Seq::<char>::empty()) =~= Seq::<u8>::empty());
        assert(e =~= encode_scalar(c as u32));
        assert(encode_utf8(chars) == encode_scalar(c as u32) + encode_utf8(decode_utf8(rest)));
        assert(l2.subrange(s.col, l2.len() as int) =~= e + rest);
        encode_utf8_first_scalar(chars);
        assert(length_of_first_scalar(e + rest) == e.len());
        assert(remove_scalar(l2, s.col) =~= line);
        crate::buffer::lemma_insert_valid(line, s.col, c);
        assert(l2[s.col] == (e + rest)[0]);
        assert(l2.len() > s.col);
        assert(backspaced(inserted(s, c)).lines =~= s.lines);
    }
}

} // verus!
