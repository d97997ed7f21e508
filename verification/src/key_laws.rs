//! What each navigation key of the notepad does: the arrow keys, Home and End move the editor's
//! cursor by one step within the text, Up and Down on the list move the selection by one row,
//! and `c` on the list opens the `checkpoint` section.
use vstd::prelude::*;
use crate::buffer::body_lines;
use crate::edit_laws::cursor_in;
use crate::notepad::{
    body_read, empty_state, key_step, moves_ok, row_named, row_named_from, rows_of,
    written_outcome, Focus, KeyCode, KeyPress, Note, Outcome, Row, Screen, Written,
};
use crate::layout::index_of;
use crate::store::{checkpoint_name, volatile_tag};

verus! {

/// The first list row from `i` on named `name` is named so, and none before it from `i` on.
pub proof fn lemma_row_named(rows: Seq<Row>, name: Seq<u8>, i: int)
    requires
        0 <= i,
    ensures
        row_named_from(rows, name, i) matches Some(k) ==> i <= k < rows.len() && rows[k].name
            == name && forall|j: int| i <= j < k ==> rows[j].name != name,
        row_named_from(rows, name, i) is None ==> forall|j: int| i <= j < rows.len() ==> rows[j].name
            != name,
    decreases rows.len() - i,
{
    if i < rows.len() && rows[i].name != name {
        lemma_row_named(rows, name, i + 1);
    }
}

/// A press of `code` with no prompt open.
pub open spec fn plain_press(v: Screen, k: KeyPress, code: KeyCode) -> bool {
    &&& v.prompt is None
    &&& k.pressed
    &&& k.code == code
}

/// The key changed nothing but the cursor and the unsaved mark, and asked nothing of the host.
pub open spec fn only_cursor_moved(v: Screen, k: KeyPress) -> bool {
    let r = key_step(v, k);
    &&& r.1 == Outcome::Nothing
    &&& r.0.buffer.lines == v.buffer.lines
    &&& r.0.file == v.file
    &&& r.0.index == v.index
    &&& r.0.rows == v.rows
    &&& r.0.selected == v.selected
    &&& r.0.focus == v.focus
    &&& r.0.prompt == v.prompt
    &&& r.0.quit == v.quit
}

/// Left moves the cursor one byte back on its line, and not past the line's start: the row
/// stays, the column drops by one unless it is already 0, and it never grows.
pub proof fn law_left_moves_back(v: Screen, k: KeyPress)
    requires
        plain_press(v, k, KeyCode::Left),
        cursor_in(v.buffer),
        moves_ok(v.buffer, 0, -1),
    ensures
        only_cursor_moved(v, k),
        key_step(v, k).0.buffer.row == v.buffer.row,
        key_step(v, k).0.buffer.col == (if v.buffer.col > 0 {
            v.buffer.col - 1
        } else {
            0
        }),
        key_step(v, k).0.buffer.col <= v.buffer.col,
{
}

/// Right moves the cursor one byte forward on its line, and not past the line's end.
pub proof fn law_right_moves_forward(v: Screen, k: KeyPress)
    requires
        plain_press(v, k, KeyCode::Right),
        cursor_in(v.buffer),
        moves_ok(v.buffer, 0, 1),
    ensures
        only_cursor_moved(v, k),
        key_step(v, k).0.buffer.row == v.buffer.row,
        key_step(v, k).0.buffer.col == (if v.buffer.col < v.buffer.lines[v.buffer.row].len() {
            v.buffer.col + 1
        } else {
            v.buffer.col
        }),
        key_step(v, k).0.buffer.col >= v.buffer.col,
{
}

/// Up in the editor moves the cursor to the line above (staying on the first line), keeping
/// its column where that line is long enough and going to its end otherwise.
pub proof fn law_up_moves_a_line_up(v: Screen, k: KeyPress)
    requires
        plain_press(v, k, KeyCode::Up),
        v.focus == Focus::Edit,
        cursor_in(v.buffer),
        moves_ok(v.buffer, -1, 0),
    ensures
        ({
            let b = key_step(v, k).0.buffer;
            let row = if v.buffer.row > 0 {
                v.buffer.row - 1
            } else {
                0
            };
            &&& only_cursor_moved(v, k)
            &&& b.row == row
            &&& b.col == (if v.buffer.col <= v.buffer.lines[row].len() {
                v.buffer.col
            } else {
                v.buffer.lines[row].len() as int
            })
        }),
{
}

/// Down in the editor moves the cursor to the line below (staying on the last line), keeping
/// its column where that line is long enough and going to its end otherwise.
pub proof fn law_down_moves_a_line_down(v: Screen, k: KeyPress)
    requires
        plain_press(v, k, KeyCode::Down),
        v.focus == Focus::Edit,
        cursor_in(v.buffer),
        moves_ok(v.buffer, 1, 0),
    ensures
        ({
            let b = key_step(v, k).0.buffer;
            let row = if v.buffer.row + 1 < v.buffer.lines.len() {
                v.buffer.row + 1
            } else {
                v.buffer.row
            };
            &&& only_cursor_moved(v, k)
            &&& b.row == row
            &&& b.col == (if v.buffer.col <= v.buffer.lines[row].len() {
                v.buffer.col
            } else {
                v.buffer.lines[row].len() as int
            })
        }),
{
}

/// Home puts the cursor at the start of its line, End at its end.
pub proof fn law_home_and_end(v: Screen, k: KeyPress)
    requires
        v.prompt is None,
        k.pressed,
        k.code == KeyCode::Home || k.code == KeyCode::End,
        cursor_in(v.buffer),
    ensures
        only_cursor_moved(v, k),
        key_step(v, k).0.buffer.row == v.buffer.row,
        k.code == KeyCode::Home ==> key_step(v, k).0.buffer.col == 0,
        k.code == KeyCode::End ==> key_step(v, k).0.buffer.col == v.buffer.lines[
            v.buffer.row
        ].len(),
{
}

/// The key changed nothing but the list selection, and asked nothing of the host.
pub open spec fn only_selection_moved(v: Screen, k: KeyPress) -> bool {
    let r = key_step(v, k);
    &&& r.1 == Outcome::Nothing
    &&& r.0.buffer == v.buffer
    &&& r.0.file == v.file
    &&& r.0.rows == v.rows
    &&& r.0.focus == v.focus
    &&& r.0.dirty == v.dirty
    &&& r.0.quit == v.quit
}

/// Up on the list selects the row just above, and stays on the first row.
pub proof fn law_list_up_selects_previous(v: Screen, k: KeyPress)
    requires
        plain_press(v, k, KeyCode::Up),
        v.focus == Focus::List,
    ensures
        only_selection_moved(v, k),
        v.selected > 0 ==> key_step(v, k).0.selected == v.selected - 1,
        v.selected <= 0 ==> key_step(v, k).0.selected == v.selected,
{
}

/// Down on the list selects the row just below, and stays on the last row.
pub proof fn law_list_down_selects_next(v: Screen, k: KeyPress)
    requires
        plain_press(v, k, KeyCode::Down),
        v.focus == Focus::List,
    ensures
        only_selection_moved(v, k),
        v.selected + 1 < v.rows.len() ==> key_step(v, k).0.selected == v.selected + 1,
        v.selected + 1 >= v.rows.len() ==> key_step(v, k).0.selected == v.selected,
{
}

/// `c` on the list, when the list holds a section named `checkpoint`, selects the first such
/// row, focuses the editor on it and loads its body there (an empty buffer when it cannot be
/// read); the file is not touched.
pub proof fn law_checkpoint_key_opens_checkpoint(v: Screen, k: KeyPress)
    requires
        plain_press(v, k, KeyCode::Char('c')),
        v.focus == Focus::List,
        row_named(v.rows, checkpoint_name()) is Some,
    ensures
        ({
            let r = key_step(v, k);
            let i = r.0.selected;
            &&& r.1 == Outcome::Nothing
            &&& r.0.file == v.file
            &&& r.0.rows == v.rows
            &&& 0 <= i < v.rows.len()
            &&& v.rows[i].name == checkpoint_name()
            &&& forall|j: int| 0 <= j < i ==> v.rows[j].name != checkpoint_name()
            &&& r.0.focus == Focus::Edit
            &&& r.0.note == Note::EditingCheckpoint
            &&& !r.0.dirty
            &&& match body_read(v, checkpoint_name()) {
                Some(b) => r.0.buffer.lines == body_lines(b) && r.0.buffer.row == 0
                    && r.0.buffer.col == 0,
                None => r.0.buffer == empty_state(),
            }
        }),
{
    lemma_row_named(v.rows, checkpoint_name(), 0);
}

/// `c` on the list, when the list holds no `checkpoint` section and writing an empty
/// `!volatile` one succeeds, stores the new file and selects the `checkpoint` row of the list
/// that file gives, with the editor on it.
pub proof fn law_checkpoint_key_creates_checkpoint(v: Screen, k: KeyPress)
    requires
        plain_press(v, k, KeyCode::Char('c')),
        v.focus == Focus::List,
        row_named(v.rows, checkpoint_name()) is None,
        written_outcome(v.file, checkpoint_name(), volatile_tag(), seq![]) is Stored,
        row_named(
            rows_of(index_of(written_outcome(v.file, checkpoint_name(), volatile_tag(), seq![])->Stored_0).0),
            checkpoint_name(),
        ) is Some,
    ensures
        ({
            let new = written_outcome(v.file, checkpoint_name(), volatile_tag(), seq![])->Stored_0;
            let r = key_step(v, k);
            let i = r.0.selected;
            &&& r.1 == Outcome::Persist(new)
            &&& r.0.file == new
            &&& r.0.rows == rows_of(index_of(new).0)
            &&& 0 <= i < r.0.rows.len()
            &&& r.0.rows[i].name == checkpoint_name()
            &&& r.0.focus == Focus::Edit
            &&& r.0.note == Note::EditingCheckpoint
        }),
{
    let new = written_outcome(v.file, checkpoint_name(), volatile_tag(), seq![])->Stored_0;
    lemma_row_named(rows_of(index_of(new).0), checkpoint_name(), 0);
}

/// The key changed nothing but the editor's text and cursor, marked the edit unsaved, and
/// asked nothing of the host.
pub open spec fn only_text_edited(v: Screen, k: KeyPress) -> bool {
    let r = key_step(v, k);
    &&& r.1 == Outcome::Nothing
    &&& r.0.dirty
    &&& r.0.file == v.file
    &&& r.0.index == v.index
    &&& r.0.rows == v.rows
    &&& r.0.selected == v.selected
    &&& r.0.focus == v.focus
    &&& r.0.prompt == v.prompt
    &&& r.0.quit == v.quit
}

/// Typing a character in the editor puts it in at the cursor (the buffer edit that
/// `law_typing_inserts_the_char` describes), and nothing else; Ctrl+S is the one exception.
pub proof fn law_typing_in_editor(v: Screen, k: KeyPress, c: char)
    requires
        plain_press(v, k, KeyCode::Char(c)),
        v.focus == Focus::Edit,
        !crate::notepad::is_control(c),
        !(c == 's' && k.ctrl),
        cursor_in(v.buffer),
        vstd::utf8::is_char_boundary(v.buffer.lines[v.buffer.row], v.buffer.col),
    ensures
        only_text_edited(v, k),
        key_step(v, k).0.buffer == crate::buffer::inserted(v.buffer, c),
{
}

/// Enter, Backspace and Delete in the editor make the buffer edits of the same names (split the
/// line, take out the character before or at the cursor or join two lines), and nothing else.
pub proof fn law_editing_keys(v: Screen, k: KeyPress)
    requires
        v.prompt is None,
        k.pressed,
        v.focus == Focus::Edit,
        cursor_in(v.buffer),
        k.code == KeyCode::Enter ==> vstd::utf8::is_char_boundary(
            v.buffer.lines[v.buffer.row],
            v.buffer.col,
        ),
        k.code == KeyCode::Backspace && v.buffer.col > 0 ==> vstd::utf8::is_char_boundary(
            v.buffer.lines[v.buffer.row],
            v.buffer.col - 1,
        ),
        k.code == KeyCode::Delete && v.buffer.col < v.buffer.lines[v.buffer.row].len()
            ==> vstd::utf8::is_char_boundary(v.buffer.lines[v.buffer.row], v.buffer.col),
    ensures
        k.code == KeyCode::Enter ==> only_text_edited(v, k) && key_step(v, k).0.buffer
            == crate::buffer::inserted(v.buffer, '\n'),
        k.code == KeyCode::Backspace ==> only_text_edited(v, k) && key_step(v, k).0.buffer
            == crate::buffer::backspaced(v.buffer),
        k.code == KeyCode::Delete ==> only_text_edited(v, k) && key_step(v, k).0.buffer
            == crate::buffer::deleted(v.buffer),
{
}

/// Tab moves the keyboard between the list and the editor, and changes nothing else.
pub proof fn law_tab_switches_panel(v: Screen, k: KeyPress)
    requires
        plain_press(v, k, KeyCode::Tab),
    ensures
        key_step(v, k).1 == Outcome::Nothing,
        key_step(v, k).0.focus != v.focus,
        key_step(v, k).0 == (Screen { focus: key_step(v, k).0.focus, ..v }),
{
}

/// Esc in the editor gives the keyboard to the list; on the list it does nothing.
pub proof fn law_esc_leaves_editor(v: Screen, k: KeyPress)
    requires
        plain_press(v, k, KeyCode::Esc),
    ensures
        key_step(v, k).1 == Outcome::Nothing,
        key_step(v, k).0 == (Screen { focus: Focus::List, ..v }),
{
}

/// Enter on the list opens the selected row in the editor: the selection stays, the editor
/// holds that section's body (an empty buffer when it cannot be read), and the file is not
/// touched.
pub proof fn law_enter_opens_selected(v: Screen, k: KeyPress)
    requires
        plain_press(v, k, KeyCode::Enter),
        v.focus == Focus::List,
        0 <= v.selected < v.rows.len(),
    ensures
        ({
            let r = key_step(v, k);
            &&& r.1 == Outcome::Nothing
            &&& r.0.focus == Focus::Edit
            &&& r.0.selected == v.selected
            &&& r.0.file == v.file
            &&& r.0.rows == v.rows
            &&& !r.0.dirty
            &&& match body_read(v, v.rows[v.selected].name) {
                Some(b) => r.0.buffer.lines == body_lines(b) && r.0.buffer.row == 0
                    && r.0.buffer.col == 0,
                None => r.0.buffer == empty_state(),
            }
        }),
{
}

/// `q` on the list quits only when nothing is unsaved, `Q` on the list always quits, and in
/// the editor neither quits.
pub proof fn law_quit_keys(v: Screen, k: KeyPress, c: char)
    requires
        plain_press(v, k, KeyCode::Char(c)),
        c == 'q' || c == 'Q',
    ensures
        key_step(v, k).0.quit == (v.quit || (v.focus == Focus::List && (c == 'Q' || !v.dirty))),
        v.focus == Focus::List ==> key_step(v, k).0 == (Screen { quit: key_step(v, k).0.quit, ..v }),
        v.focus == Focus::List ==> key_step(v, k).1 == Outcome::Nothing,
{
}

/// With the prompt open, Esc takes it down and changes nothing else.
pub proof fn law_prompt_esc_cancels(v: Screen, k: KeyPress)
    requires
        v.prompt is Some,
        k.pressed,
        k.code == KeyCode::Esc,
    ensures
        key_step(v, k).1 == Outcome::Nothing,
        key_step(v, k).0 == (Screen { prompt: None, note: Note::Cancelled, ..v }),
{
}

/// With the prompt open, typing a character adds it at the end of the input (the offered
/// `durable` being replaced by the first character typed at the tier prompt), and changes
/// nothing else.
pub proof fn law_prompt_typing_appends(v: Screen, k: KeyPress, c: char)
    requires
        v.prompt is Some,
        k.pressed,
        k.code == KeyCode::Char(c),
        !crate::notepad::is_control(c),
    ensures
        ({
            let p = v.prompt->Some_0;
            let r = key_step(v, k);
            let offered = p.kind == crate::notepad::PromptKind::NewTier && p.input
                == crate::notepad::durable_word();
            &&& r.1 == Outcome::Nothing
            &&& r.0.prompt is Some
            &&& r.0.prompt->Some_0.kind == p.kind
            &&& r.0.prompt->Some_0.pending == p.pending
            &&& r.0.prompt->Some_0.input == (if offered {
                vstd::utf8::encode_utf8(seq![c])
            } else {
                p.input + vstd::utf8::encode_utf8(seq![c])
            })
            &&& r.0 == (Screen { prompt: r.0.prompt, ..v })
        }),
{
    let p = v.prompt->Some_0;
    assert(Seq::<u8>::empty() + vstd::utf8::encode_utf8(seq![c]) =~= vstd::utf8::encode_utf8(
        seq![c],
    ));
}

/// At the name prompt, Enter with a name that is not blank moves on to the tier prompt, which
/// offers `durable` and keeps the name without the whitespace around it; a blank name keeps
/// the name prompt open.
pub proof fn law_name_prompt_enter(v: Screen, k: KeyPress)
    requires
        v.prompt is Some,
        v.prompt->Some_0.kind == crate::notepad::PromptKind::NewName,
        k.pressed,
        k.code == KeyCode::Enter,
    ensures
        ({
            let p = v.prompt->Some_0;
            let name = crate::padding::trimmed(p.input);
            let r = key_step(v, k);
            &&& r.1 == Outcome::Nothing
            &&& r.0.file == v.file
            &&& name.len() > 0 ==> r.0.prompt == Some(
                crate::notepad::PromptView {
                    kind: crate::notepad::PromptKind::NewTier,
                    input: crate::padding::bare_durable(),
                    pending: Some(name),
                },
            )
            &&& name.len() == 0 ==> r.0.prompt == Some(p) && r.0.note == Note::NameEmpty
        }),
{
}

/// The bytes of one character: a first byte that is not a continuation byte, then
/// continuation bytes only.
proof fn lemma_char_bytes(c: char)
    ensures
        ({
            let e = vstd::utf8::encode_utf8(seq![c]);
            &&& 1 <= e.len() <= 4
            &&& !vstd::utf8::is_continuation_byte(e[0])
            &&& forall|i: int| 1 <= i < e.len() ==> vstd::utf8::is_continuation_byte(#[trigger] e[i])
        }),
{
    let e = vstd::utf8::encode_utf8(seq![c]);
    vstd::utf8::encode_utf8_first_scalar(seq![c]);
    reveal_with_fuel(vstd::utf8::encode_utf8, 2);
    assert(seq![c].drop_first() =~= Seq::<char>::empty());
    assert(seq![c][0] == c);
    assert(vstd::utf8::encode_utf8(Seq::<char>::empty()) =~= Seq::<u8>::empty());
    assert(e =~= vstd::utf8::encode_scalar(c as u32));
}

/// Walking back from `k` over continuation bytes stops at `j`.
proof fn lemma_last_start(y: Seq<u8>, k: int, j: int)
    requires
        0 <= j <= k < y.len(),
        forall|i: int| j < i <= k ==> vstd::utf8::is_continuation_byte(#[trigger] y[i]),
        j == 0 || !vstd::utf8::is_continuation_byte(y[j]),
    ensures
        crate::notepad::last_start(y, k) == j,
    decreases k - j,
{
    if k > j {
        lemma_last_start(y, k - 1, j);
    }
}

/// Taking the last character off text that ends with `c` gives the text before `c`.
pub proof fn law_pop_takes_last_char(x: Seq<u8>, c: char)
    ensures
        crate::notepad::popped(x + vstd::utf8::encode_utf8(seq![c])) == x,
{
    let e = vstd::utf8::encode_utf8(seq![c]);
    let y = x + e;
    lemma_char_bytes(c);
    assert forall|i: int| x.len() < i <= y.len() - 1 implies vstd::utf8::is_continuation_byte(
        #[trigger] y[i],
    ) by {
        assert(y[i] == e[i - x.len()]);
    }
    assert(y[x.len() as int] == e[0]);
    lemma_last_start(y, y.len() - 1, x.len() as int);
    assert(y.subrange(0, x.len() as int) =~= x);
}

/// With the prompt open, Backspace takes the last character off the input, and changes
/// nothing else.
pub proof fn law_prompt_backspace_pops(v: Screen, k: KeyPress)
    requires
        v.prompt is Some,
        k.pressed,
        k.code == KeyCode::Backspace,
    ensures
        ({
            let p = v.prompt->Some_0;
            let r = key_step(v, k);
            &&& r.1 == Outcome::Nothing
            &&& r.0 == (Screen {
                prompt: Some(
                    crate::notepad::PromptView { input: crate::notepad::popped(p.input), ..p },
                ),
                ..v
            })
            &&& forall|x: Seq<u8>, c: char|
                p.input == x + vstd::utf8::encode_utf8(seq![c]) ==> r.0.prompt->Some_0.input == x
            &&& p.input.len() == 0 ==> r.0.prompt->Some_0.input == p.input
        }),
{
    let p = v.prompt->Some_0;
    assert forall|x: Seq<u8>, c: char|
        p.input == x + vstd::utf8::encode_utf8(seq![c]) implies key_step(v, k).0.prompt->Some_0.input
        == x by {
        law_pop_takes_last_char(x, c);
    }
}

/// At the tier prompt, Enter with a tier the input names opens the section of the name given
/// before: the first list row of that name when there is one (the file untouched), or else a
/// new empty section of that name and tier, written and then selected; with a tier the input
/// does not name, the prompt stays open and reports it.
pub proof fn law_tier_prompt_enter(v: Screen, k: KeyPress)
    requires
        v.prompt is Some,
        v.prompt->Some_0.kind == crate::notepad::PromptKind::NewTier,
        k.pressed,
        k.code == KeyCode::Enter,
    ensures
        ({
            let p = v.prompt->Some_0;
            let input = crate::padding::trimmed(p.input);
            let name = match p.pending {
                Some(n) => n,
                None => seq![],
            };
            let r = key_step(v, k);
            match crate::padding::tier_named(input) {
                None => r.1 == Outcome::Nothing && r.0 == (Screen {
                    note: Note::InvalidTier(input),
                    ..v
                }),
                Some(tier) => match row_named(v.rows, name) {
                    Some(i) => {
                        &&& r.1 == Outcome::Nothing
                        &&& r.0.prompt is None
                        &&& r.0.file == v.file
                        &&& r.0.rows == v.rows
                        &&& r.0.selected == i
                        &&& v.rows[i].name == name
                        &&& forall|j: int| 0 <= j < i ==> v.rows[j].name != name
                        &&& r.0.focus == Focus::Edit
                        &&& r.0.note == Note::OpenedExisting(name)
                    },
                    None => match written_outcome(v.file, name, tier, seq![]) {
                        Written::Stored(new) => {
                            &&& r.1 == Outcome::Persist(new)
                            &&& r.0.prompt is None
                            &&& r.0.file == new
                            &&& r.0.rows == rows_of(index_of(new).0)
                            &&& row_named(r.0.rows, name) is Some ==> {
                                &&& 0 <= r.0.selected < r.0.rows.len()
                                &&& r.0.rows[r.0.selected].name == name
                                &&& r.0.focus == Focus::Edit
                                &&& r.0.note == Note::Created(name, tier)
                            }
                        },
                        _ => r.0.file == v.file,
                    },
                },
            }
        }),
{
    let p = v.prompt->Some_0;
    let name = match p.pending {
        Some(n) => n,
        None => seq![],
    };
    lemma_row_named(v.rows, name, 0);
    let tier = crate::padding::tier_named(crate::padding::trimmed(p.input));
    if let Some(t) = tier {
        if let Written::Stored(new) = written_outcome(v.file, name, t, seq![]) {
            lemma_row_named(rows_of(index_of(new).0), name, 0);
        }
    }
}

/// How far apart two positions are.
pub open spec fn distance(a: int, b: int) -> int {
    if a >= b {
        a - b
    } else {
        b - a
    }
}

/// Scrolling a window of `size` rows (or columns) to show position `pos`: afterwards `pos` is
/// inside the window; a window that already showed it does not move; and no window that shows
/// it lies closer to where the window was.
pub proof fn law_scroll_shows_position(pos: int, start: int, size: int)
    requires
        size > 0,
        0 <= pos,
        0 <= start,
    ensures
        ({
            let s2 = crate::notepad::scrolled(pos, start, size);
            &&& s2 <= pos < s2 + size
            &&& s2 >= 0
            &&& (start <= pos < start + size ==> s2 == start)
            &&& forall|t: int|
                t <= pos < t + size ==> distance(s2, start) <= #[trigger] distance(t, start)
        }),
{
}

} // verus!
