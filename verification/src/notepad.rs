//! The terminal notepad's decisions: which key does what to the section list, the editor and
//! the new-section prompt, and which store writes follow. The host draws the screen, reads keys
//! and stores the bytes a write produces.
use vstd::prelude::*;
use vstd::utf8::*;
use crate::buffer::{
    backspaced, body_lines, body_of, clamp, deleted, inserted, Buffer, BufferState,
};
use crate::layout::{index_of, read_at, ReadOutcome, SectionView};
use crate::bytes::{copy_range, eq_bytes, push_all};
use crate::buffer::encode_char;
use crate::layout::string_of;
use crate::padding::{bare_durable, lemma_trimmed_valid, tier_named, tier_named_exec, trim_bounds, trimmed};
use crate::unicode::lemma_str_valid;
use crate::store::{after_write, checkpoint_name, first_named, is_tier, volatile_tag, MctxError};
use crate::writer::write_defined;

verus! {

// ---- keys and state ------------------------------------------------------------------------

/// Which key was pressed.
#[derive(Clone, Copy, Debug, PartialEq, Eq, Structural)]
pub enum KeyCode {
    Char(char),
    Enter,
    Tab,
    Esc,
    Up,
    Down,
    Left,
    Right,
    Home,
    End,
    Backspace,
    Delete,
    /// Any key the notepad does not act on.
    Other,
}

/// A key event: the key, whether Ctrl was held, and whether it is a press (or a repeat) rather
/// than a release.
#[derive(Clone, Copy, Debug, PartialEq, Eq, Structural)]
pub struct KeyPress {
    pub code: KeyCode,
    pub ctrl: bool,
    pub pressed: bool,
}

/// The panel that has the keyboard.
#[derive(Clone, Copy, Debug, PartialEq, Eq, Structural)]
pub enum Focus {
    List,
    Edit,
}

/// What the prompt asks for.
#[derive(Clone, Copy, Debug, PartialEq, Eq, Structural)]
pub enum PromptKind {
    NewName,
    NewTier,
}

/// The new-section prompt: what it asks, what was typed, and the name given before the tier.
#[derive(Clone, Debug, PartialEq, Eq)]
pub struct Prompt {
    pub kind: PromptKind,
    pub input: String,
    pub pending_name: Option<String>,
}

/// One entry of the section list.
#[derive(Clone, Debug, PartialEq, Eq)]
pub struct SectionInfo {
    pub name: String,
    pub tier: String,
    pub version: u32,
}

/// The message on the status bar.
#[derive(Clone, Debug, PartialEq, Eq)]
pub enum Status {
    Empty,
    /// The key help shown at start.
    Help,
    CouldNotRead(String),
    NoSelection,
    Saved(String, u32),
    SaveFailed(MctxError),
    CheckpointFailed(MctxError),
    EditingCheckpoint,
    Cancelled,
    NameEmpty,
    InvalidTier(String),
    OpenedExisting(String),
    Created(String, String),
    CreateFailed(MctxError),
}

/// What the host must do after a key.
#[derive(Debug, PartialEq, Eq)]
pub enum Effect {
    Nothing,
    /// Store these bytes as the file's new content.
    Persist(Vec<u8>),
    /// Stop: the key asks for an edit the notepad cannot make (a cursor inside a multi-byte
    /// character, a section without its `%%END`, a version at its limit).
    Abort,
}

/// The notepad: the file's bytes as last read or written, its store, the section list, the
/// editor and the prompt.
pub struct App {
    pub path: String,
    pub file: Vec<u8>,
    pub store: crate::store::Store,
    pub sections: Vec<SectionInfo>,
    pub selected: usize,
    pub list_scroll: u16,
    pub buffer: Buffer,
    pub edit_scroll: (u16, u16),
    pub focus: Focus,
    pub prompt: Option<Prompt>,
    pub status: Status,
    pub dirty: bool,
    pub quit: bool,
}

// ---- the model ---------------------------------------------------------------------------

/// A section list entry, as bytes.
pub struct Row {
    pub name: Seq<u8>,
    pub tier: Seq<u8>,
    pub version: u32,
}

/// The prompt, as bytes.
pub struct PromptView {
    pub kind: PromptKind,
    pub input: Seq<u8>,
    pub pending: Option<Seq<u8>>,
}

/// The status message, as bytes.
pub enum Note {
    Empty,
    Help,
    CouldNotRead(Seq<u8>),
    NoSelection,
    Saved(Seq<u8>, u32),
    SaveFailed(MctxError),
    CheckpointFailed(MctxError),
    EditingCheckpoint,
    Cancelled,
    NameEmpty,
    InvalidTier(Seq<u8>),
    OpenedExisting(Seq<u8>),
    Created(Seq<u8>, Seq<u8>),
    CreateFailed(MctxError),
}

/// What the host is asked to do, as bytes.
pub enum Outcome {
    Nothing,
    Persist(Seq<u8>),
    Abort,
}

/// Everything a key can change.
#[verifier::ext_equal]
pub struct Screen {
    pub file: Seq<u8>,
    pub index: Seq<SectionView>,
    pub rows: Seq<Row>,
    pub selected: int,
    pub list_scroll: u16,
    pub buffer: BufferState,
    pub edit_scroll: (u16, u16),
    pub focus: Focus,
    pub prompt: Option<PromptView>,
    pub note: Note,
    pub dirty: bool,
    pub quit: bool,
}

pub open spec fn bytes_of(s: String) -> Seq<u8> {
    encode_utf8(s@)
}

impl SectionInfo {
    pub open spec fn row(&self) -> Row {
        Row { name: bytes_of(self.name), tier: bytes_of(self.tier), version: self.version }
    }
}

impl Prompt {
    pub open spec fn prompt_view(&self) -> PromptView {
        PromptView {
            kind: self.kind,
            input: bytes_of(self.input),
            pending: match self.pending_name {
                Some(n) => Some(bytes_of(n)),
                None => None,
            },
        }
    }
}

impl Status {
    pub open spec fn note(&self) -> Note {
        match self {
            Status::Empty => Note::Empty,
            Status::Help => Note::Help,
            Status::CouldNotRead(n) => Note::CouldNotRead(bytes_of(*n)),
            Status::NoSelection => Note::NoSelection,
            Status::Saved(n, v) => Note::Saved(bytes_of(*n), *v),
            Status::SaveFailed(e) => Note::SaveFailed(*e),
            Status::CheckpointFailed(e) => Note::CheckpointFailed(*e),
            Status::EditingCheckpoint => Note::EditingCheckpoint,
            Status::Cancelled => Note::Cancelled,
            Status::NameEmpty => Note::NameEmpty,
            Status::InvalidTier(t) => Note::InvalidTier(bytes_of(*t)),
            Status::OpenedExisting(n) => Note::OpenedExisting(bytes_of(*n)),
            Status::Created(n, t) => Note::Created(bytes_of(*n), bytes_of(*t)),
            Status::CreateFailed(e) => Note::CreateFailed(*e),
        }
    }
}

impl Effect {
    pub open spec fn outcome(&self) -> Outcome {
        match self {
            Effect::Nothing => Outcome::Nothing,
            Effect::Persist(b) => Outcome::Persist(b@),
            Effect::Abort => Outcome::Abort,
        }
    }
}

pub open spec fn rows_of_infos(s: Seq<SectionInfo>) -> Seq<Row> {
    s.map_values(|i: SectionInfo| i.row())
}

impl App {
    pub open spec fn screen(&self) -> Screen {
        Screen {
            file: self.file@,
            index: self.store@,
            rows: rows_of_infos(self.sections@),
            selected: self.selected as int,
            list_scroll: self.list_scroll,
            buffer: self.buffer.state(),
            edit_scroll: self.edit_scroll,
            focus: self.focus,
            prompt: match self.prompt {
                Some(p) => Some(p.prompt_view()),
                None => None,
            },
            note: self.status.note(),
            dirty: self.dirty,
            quit: self.quit,
        }
    }

    /// The editor holds at least one line with the cursor on it, and the selection is at most
    /// one past the list.
    pub open spec fn wf(&self) -> bool {
        &&& self.buffer.wf()
        &&& self.selected <= self.sections@.len()
    }
}

/// The section list the index gives.
pub open spec fn rows_of(index: Seq<SectionView>) -> Seq<Row> {
    index.map_values(|s: SectionView| Row { name: s.name, tier: s.tier, version: s.version })
}

/// The first list entry from `i` on named `name`.
pub open spec fn row_named_from(rows: Seq<Row>, name: Seq<u8>, i: int) -> Option<int>
    decreases rows.len() - i,
{
    if i < 0 || i >= rows.len() {
        None
    } else if rows[i].name == name {
        Some(i)
    } else {
        row_named_from(rows, name, i + 1)
    }
}

pub open spec fn row_named(rows: Seq<Row>, name: Seq<u8>) -> Option<int> {
    row_named_from(rows, name, 0)
}

/// The list reloaded from the index, the selection kept within it.
pub open spec fn refreshed(v: Screen) -> Screen {
    let rows = rows_of(v.index);
    Screen {
        rows: rows,
        selected: if v.selected >= rows.len() {
            if rows.len() > 0 {
                rows.len() - 1
            } else {
                0
            }
        } else {
            v.selected
        },
        ..v
    }
}

/// The body read for section `name`, if the read succeeds.
pub open spec fn body_read(v: Screen, name: Seq<u8>) -> Option<Seq<u8>> {
    match first_named(v.index, name) {
        None => None,
        Some(i) => match read_at(v.file, v.index[i].offset as nat, name) {
            ReadOutcome::Body(b) => Some(b),
            _ => None,
        },
    }
}

pub open spec fn empty_state() -> BufferState {
    BufferState { lines: seq![seq![]], row: 0, col: 0 }
}

/// The editor after loading list entry `idx`: its body, or an empty buffer and a note when the
/// read fails; the edit is clean and scrolled to the top.
pub open spec fn loaded(v: Screen, idx: int) -> Screen {
    if 0 <= idx < v.rows.len() {
        let name = v.rows[idx].name;
        match body_read(v, name) {
            Some(b) => Screen {
                buffer: BufferState { lines: body_lines(b), row: 0, col: 0 },
                edit_scroll: (0u16, 0u16),
                dirty: false,
                ..v
            },
            None => Screen {
                buffer: empty_state(),
                note: Note::CouldNotRead(name),
                edit_scroll: (0u16, 0u16),
                dirty: false,
                ..v
            },
        }
    } else {
        v
    }
}

/// How writing `body` to `name` with `tier` comes out on `file`.
pub enum Written {
    Refused(MctxError),
    Abort,
    Stored(Seq<u8>),
}

/// The tier is checked first, then that the file is text, then that the write is defined;
/// then the new bytes are stored.
pub open spec fn written_outcome(file: Seq<u8>, name: Seq<u8>, tier: Seq<u8>, body: Seq<u8>) -> Written {
    if !is_tier(tier) {
        Written::Refused(MctxError::InvalidTier)
    } else if !valid_utf8(file) {
        Written::Refused(MctxError::InvalidUtf8)
    } else if !write_defined(file, name) {
        Written::Abort
    } else {
        Written::Stored(after_write(file, name, tier, body))
    }
}

/// What a write leaves of the model (the note is the caller's).
pub open spec fn after_written(v: Screen, w: Written) -> Screen {
    match w {
        Written::Stored(new) => Screen { file: new, index: index_of(new).0, ..v },
        _ => v,
    }
}

/// The version listed for the first entry named `name`, or 0.
pub open spec fn listed_version(rows: Seq<Row>, name: Seq<u8>) -> u32 {
    match row_named(rows, name) {
        Some(i) => rows[i].version,
        None => 0,
    }
}

/// Ctrl+S: the editor's text is written to the selected section with its tier.
pub open spec fn saved(v: Screen) -> (Screen, Outcome) {
    if !(0 <= v.selected < v.rows.len()) {
        (Screen { note: Note::NoSelection, ..v }, Outcome::Nothing)
    } else {
        let name = v.rows[v.selected].name;
        let tier = v.rows[v.selected].tier;
        let w = written_outcome(v.file, name, tier, body_of(v.buffer.lines));
        match w {
            Written::Abort => (v, Outcome::Abort),
            Written::Refused(e) => (Screen { note: Note::SaveFailed(e), ..v }, Outcome::Nothing),
            Written::Stored(new) => {
                let r = refreshed(after_written(v, w));
                (
                    Screen { dirty: false, note: Note::Saved(name, listed_version(r.rows, name)), ..r },
                    Outcome::Persist(new),
                )
            },
        }
    }
}

/// Selects, loads and focuses list entry `i`.
pub open spec fn opened(v: Screen, i: int) -> Screen {
    Screen { focus: Focus::Edit, ..loaded(Screen { selected: i, ..v }, i) }
}

/// `c` on the list: the `checkpoint` section is opened for editing, after writing it empty
/// (`!volatile`) when the list has none.
pub open spec fn checkpointed(v: Screen) -> (Screen, Outcome) {
    let cp = checkpoint_name();
    if row_named(v.rows, cp) is None {
        let w = written_outcome(v.file, cp, volatile_tag(), seq![]);
        match w {
            Written::Abort => (v, Outcome::Abort),
            Written::Refused(e) => (Screen { note: Note::CheckpointFailed(e), ..v }, Outcome::Nothing),
            Written::Stored(new) => {
                let r = refreshed(after_written(v, w));
                match row_named(r.rows, cp) {
                    Some(i) => (Screen { note: Note::EditingCheckpoint, ..opened(r, i) }, Outcome::Persist(new)),
                    None => (r, Outcome::Persist(new)),
                }
            },
        }
    } else {
        let i = row_named(v.rows, cp)->0;
        (Screen { note: Note::EditingCheckpoint, ..opened(v, i) }, Outcome::Nothing)
    }
}

/// `durable`, the tier the prompt offers first.
pub open spec fn durable_word() -> Seq<u8> {
    bare_durable()
}

/// A control character (`char::is_control`).
pub open spec fn is_control(c: char) -> bool {
    (c as u32) < 0x20 || (0x7f <= (c as u32) && (c as u32) <= 0x9f)
}

/// Where the last scalar of `x[..k]` starts: back over continuation bytes.
pub open spec fn last_start(x: Seq<u8>, k: int) -> int
    decreases k,
{
    if k <= 0 {
        0
    } else if is_continuation_byte(x[k]) {
        last_start(x, k - 1)
    } else {
        k
    }
}

/// `x` without its last character (`String::pop`).
pub open spec fn popped(x: Seq<u8>) -> Seq<u8> {
    if x.len() == 0 {
        x
    } else {
        x.subrange(0, last_start(x, x.len() - 1))
    }
}

/// A new section `name` written empty with `tier`, then opened for editing.
pub open spec fn created(v: Screen, name: Seq<u8>, tier: Seq<u8>) -> (Screen, Outcome) {
    let w = written_outcome(v.file, name, tier, seq![]);
    match w {
        Written::Abort => (v, Outcome::Abort),
        Written::Refused(e) => (Screen { note: Note::CreateFailed(e), ..v }, Outcome::Nothing),
        Written::Stored(new) => {
            let r = refreshed(after_written(v, w));
            match row_named(r.rows, name) {
                Some(i) => (
                    Screen { note: Note::Created(name, tier), ..opened(r, i) },
                    Outcome::Persist(new),
                ),
                None => (r, Outcome::Persist(new)),
            }
        },
    }
}

/// Enter on the prompt: a name goes on to the tier; a tier opens the section of that name, or
/// creates it empty and opens it.
pub open spec fn prompt_entered(v: Screen, p: PromptView) -> (Screen, Outcome) {
    let input = trimmed(p.input);
    match p.kind {
        PromptKind::NewName => if input.len() == 0 {
            (Screen { prompt: Some(p), note: Note::NameEmpty, ..v }, Outcome::Nothing)
        } else {
            (
                Screen {
                    prompt: Some(
                        PromptView {
                            kind: PromptKind::NewTier,
                            input: durable_word(),
                            pending: Some(input),
                        },
                    ),
                    ..v
                },
                Outcome::Nothing,
            )
        },
        PromptKind::NewTier => {
            let name = match p.pending {
                Some(n) => n,
                None => seq![],
            };
            match tier_named(input) {
                None => (
                    Screen { prompt: Some(p), note: Note::InvalidTier(input), ..v },
                    Outcome::Nothing,
                ),
                Some(tier) => match row_named(v.rows, name) {
                    Some(i) => (
                        Screen { note: Note::OpenedExisting(name), ..opened(v, i) },
                        Outcome::Nothing,
                    ),
                    None => created(v, name, tier),
                },
            }
        },
    }
}

/// A key while the prompt is open (`v` is the model with the prompt taken down).
pub open spec fn prompt_step(v: Screen, p: PromptView, k: KeyPress) -> (Screen, Outcome) {
    match k.code {
        KeyCode::Esc => (Screen { note: Note::Cancelled, ..v }, Outcome::Nothing),
        KeyCode::Enter => prompt_entered(v, p),
        KeyCode::Backspace => (
            Screen { prompt: Some(PromptView { input: popped(p.input), ..p }), ..v },
            Outcome::Nothing,
        ),
        KeyCode::Char(c) => if !is_control(c) {
            let base = if p.kind == PromptKind::NewTier && p.input == durable_word() {
                Seq::<u8>::empty()
            } else {
                p.input
            };
            (
                Screen {
                    prompt: Some(PromptView { input: base + encode_utf8(seq![c]), ..p }),
                    ..v
                },
                Outcome::Nothing,
            )
        } else {
            (Screen { prompt: Some(p), ..v }, Outcome::Nothing)
        },
        _ => (Screen { prompt: Some(p), ..v }, Outcome::Nothing),
    }
}

/// Whether the cursor may move by `dr` rows and `dc` bytes: every count fits an `i64`.
pub open spec fn moves_ok(b: BufferState, dr: int, dc: int) -> bool {
    &&& b.lines.len() <= i64::MAX
    &&& forall|i: int| 0 <= i < b.lines.len() ==> #[trigger] b.lines[i].len() <= i64::MAX
    &&& b.row + dr <= i64::MAX
    &&& b.col + dc <= i64::MAX
}

/// The cursor moved by `dr` rows, then `dc` bytes, each clamped to the text.
pub open spec fn moved(b: BufferState, dr: int, dc: int) -> BufferState {
    let row = clamp(b.row + dr, 0, b.lines.len() - 1);
    BufferState { row: row, col: clamp(b.col + dc, 0, b.lines[row].len() as int), ..b }
}

/// An edit of the buffer that marks it changed, or a stop when the edit is not possible.
pub open spec fn edited(v: Screen, ok: bool, b: BufferState) -> (Screen, Outcome) {
    if ok {
        (Screen { buffer: b, dirty: true, ..v }, Outcome::Nothing)
    } else {
        (v, Outcome::Abort)
    }
}

pub open spec fn cursor_line(v: Screen) -> Seq<u8> {
    v.buffer.lines[v.buffer.row]
}

/// A key with no prompt open.
pub open spec fn plain_step(v: Screen, k: KeyPress) -> (Screen, Outcome) {
    let list = v.focus == Focus::List;
    let b = v.buffer;
    match k.code {
        KeyCode::Char(c) => if c == 'q' && list && !v.dirty {
            (Screen { quit: true, ..v }, Outcome::Nothing)
        } else if c == 'Q' && list {
            (Screen { quit: true, ..v }, Outcome::Nothing)
        } else if c == 'a' && list {
            (
                Screen {
                    prompt: Some(
                        PromptView { kind: PromptKind::NewName, input: seq![], pending: None },
                    ),
                    ..v
                },
                Outcome::Nothing,
            )
        } else if c == 'c' && list {
            checkpointed(v)
        } else if c == 's' && k.ctrl && !list {
            saved(v)
        } else if !list && !is_control(c) {
            edited(v, is_char_boundary(cursor_line(v), b.col), inserted(b, c))
        } else {
            (v, Outcome::Nothing)
        },
        KeyCode::Tab => (
            Screen { focus: if list { Focus::Edit } else { Focus::List }, ..v },
            Outcome::Nothing,
        ),
        KeyCode::Esc => if !list {
            (Screen { focus: Focus::List, ..v }, Outcome::Nothing)
        } else {
            (v, Outcome::Nothing)
        },
        KeyCode::Enter => if list {
            (Screen { focus: Focus::Edit, ..loaded(v, v.selected) }, Outcome::Nothing)
        } else {
            edited(v, is_char_boundary(cursor_line(v), b.col), inserted(b, '\n'))
        },
        KeyCode::Up => if list {
            (
                Screen { selected: if v.selected > 0 { v.selected - 1 } else { v.selected }, ..v },
                Outcome::Nothing,
            )
        } else {
            edited(v, moves_ok(b, -1, 0), moved(b, -1, 0))
        },
        KeyCode::Down => if list {
            (
                Screen {
                    selected: if v.selected + 1 < v.rows.len() {
                        v.selected + 1
                    } else {
                        v.selected
                    },
                    ..v
                },
                Outcome::Nothing,
            )
        } else {
            edited(v, moves_ok(b, 1, 0), moved(b, 1, 0))
        },
        KeyCode::Left => edited(v, moves_ok(b, 0, -1), moved(b, 0, -1)),
        KeyCode::Right => edited(v, moves_ok(b, 0, 1), moved(b, 0, 1)),
        KeyCode::Home => edited(v, true, BufferState { col: 0, ..b }),
        KeyCode::End => edited(v, true, BufferState { col: cursor_line(v).len() as int, ..b }),
        KeyCode::Backspace => edited(
            v,
            b.col > 0 ==> is_char_boundary(cursor_line(v), b.col - 1),
            backspaced(b),
        ),
        KeyCode::Delete => edited(
            v,
            b.col < cursor_line(v).len() ==> is_char_boundary(cursor_line(v), b.col),
            deleted(b),
        ),
        KeyCode::Other => (v, Outcome::Nothing),
    }
}

/// What a key does: releases are ignored, an open prompt takes every key, and otherwise the
/// key acts on the list or the editor.
pub open spec fn key_step(v: Screen, k: KeyPress) -> (Screen, Outcome) {
    if !k.pressed {
        (v, Outcome::Nothing)
    } else {
        match v.prompt {
            Some(p) => prompt_step(Screen { prompt: None, ..v }, p, k),
            None => plain_step(v, k),
        }
    }
}

// ---- text input --------------------------------------------------------------------------

/// Whether `c` is a control character (`char::is_control`).
pub fn is_control_char(c: char) -> (r: bool)
    ensures
        r == is_control(c),
{
    let v = c as u32;
    v < 0x20 || (0x7f <= v && v <= 0x9f)
}

/// `x` without leading and trailing whitespace (`str::trim`).
pub fn trim_text(x: &String) -> (r: String)
    ensures
        bytes_of(r) == trimmed(bytes_of(*x)),
{
    let b = x.as_str().as_bytes();
    let (s, e) = trim_bounds(b);
    proof {
        lemma_str_valid(x@);
        lemma_trimmed_valid(b@);
    }
    string_of(copy_range(b, s, e))
}

/// `x` without its last character (`String::pop`).
#[verifier::rlimit(30)]
pub fn pop_text(x: &String) -> (r: String)
    ensures
        bytes_of(r) == popped(bytes_of(*x)),
{
    let b = x.as_str().as_bytes();
    let n = b.len();
    proof {
        lemma_str_valid(x@);
    }
    if n == 0 {
        proof {
            assert(encode_utf8(Seq::<char>::empty()) =~= Seq::<u8>::empty());
        }
        return String::new();
    }
    let mut k: usize = n - 1;
    while k > 0 && b[k] >= 0x80 && b[k] <= 0xbf
        invariant
            k < n,
            n == b@.len(),
            last_start(b@, n - 1) == last_start(b@, k as int),
        decreases k,
    {
        k = k - 1;
    }
    proof {
        if k > 0 {
            crate::unicode::lemma_valid_between(b@, 0, k as int);
        } else {
            assert(vstd::utf8::valid_utf8(b@.subrange(0, 0))) by {
                assert(b@.subrange(0, 0) =~= Seq::<u8>::empty());
                reveal_with_fuel(vstd::utf8::valid_utf8, 1);
            }
        }
    }
    string_of(copy_range(b, 0, k))
}

/// `x` with `c` added at the end (`String::push`).
pub fn push_text(x: &String, c: char) -> (r: String)
    ensures
        bytes_of(r) == bytes_of(*x) + encode_utf8(seq![c]),
{
    let b = x.as_str().as_bytes();
    let n = b.len();
    let mut out = copy_range(b, 0, n);
    assert(b@.subrange(0, n as int) =~= b@);
    let enc = encode_char(c);
    push_all(&mut out, enc.as_slice());
    proof {
        lemma_str_valid(x@);
        lemma_str_valid(seq![c]);
        valid_utf8_concat(b@, enc@);
    }
    string_of(out)
}

/// The tier tag a typed tier names: `fixed`, `durable`, `volatile`, with or without `!`, with
/// whitespace around it allowed.
pub fn normalize_tier(input: &str) -> (r: Option<&'static str>)
    ensures
        match r {
            Some(t) => tier_named(encode_utf8(input@)) == Some(encode_utf8(t@)),
            None => tier_named(encode_utf8(input@)) is None,
        },
{
    let fixed = "!fixed";
    let durable = "!durable";
    let volatile = "!volatile";
    proof {
        reveal_strlit("!fixed");
        reveal_strlit("!durable");
        reveal_strlit("!volatile");
        vstd::string::is_ascii_spec_bytes(fixed);
        vstd::string::is_ascii_spec_bytes(durable);
        vstd::string::is_ascii_spec_bytes(volatile);
        assert(vstd::string::is_ascii(fixed));
        assert(vstd::string::is_ascii(durable));
        assert(vstd::string::is_ascii(volatile));
        assert(encode_utf8(fixed@) =~= seq![33u8] + crate::padding::bare_fixed());
        assert(encode_utf8(durable@) =~= seq![33u8] + bare_durable());
        assert(encode_utf8(volatile@) =~= seq![33u8] + crate::padding::bare_volatile());
    }
    match tier_named_exec(input.as_bytes()) {
        Some(0) => Some(fixed),
        Some(1) => Some(durable),
        Some(_) => Some(volatile),
        None => None,
    }
}

/// Whether `x` reads `durable`.
fn is_durable_word(x: &String) -> (r: bool)
    ensures
        r == (bytes_of(*x) == durable_word()),
{
    let w: [u8; 7] = [100, 117, 114, 97, 98, 108, 101];
    assert(w@ =~= durable_word());
    eq_bytes(x.as_str().as_bytes(), w.as_slice())
}

// ---- the editor's checks ---------------------------------------------------------------

/// Whether byte `k` of the cursor's line is a char boundary.
fn boundary_in_line(b: &Buffer, k: usize) -> (r: bool)
    requires
        b.wf(),
        k <= b.line_bytes()[b.cursor_row as int].len(),
    ensures
        r == is_char_boundary(b.line_bytes()[b.cursor_row as int], k as int),
{
    let line = b.line_at(b.cursor_row);
    let n = line.len();
    if k == n {
        proof {
            crate::unicode::lemma_boundary_at(line@, k as int);
        }
        return true;
    }
    let c = line[k];
    proof {
        is_char_boundary_iff_not_is_continuation_byte(line@, k as int);
    }
    !(c >= 0x80 && c <= 0xbf)
}

/// Whether the cursor may move by `dr` rows and `dc` bytes (`moves_ok`).
fn move_fits(b: &Buffer, dr: i64, dc: i64) -> (r: bool)
    requires
        b.wf(),
    ensures
        r == moves_ok(b.state(), dr as int, dc as int),
{
    let n = b.lines.len();
    if n as u128 > 0x7fff_ffff_ffff_ffffu128 {
        return false;
    }
    let mut i: usize = 0;
    while i < n
        invariant
            i <= n,
            n == b.lines@.len(),
            forall|j: int| 0 <= j < i ==> #[trigger] b.line_bytes()[j].len() <= i64::MAX,
        decreases n - i,
    {
        let len = b.lines[i].as_str().as_bytes().len();
        proof {
            assert(b.line_bytes()[i as int] == encode_utf8(b.lines@[i as int]@));
        }
        if len as u128 > 0x7fff_ffff_ffff_ffffu128 {
            return false;
        }
        i = i + 1;
    }
    (b.cursor_row as i128) + (dr as i128) <= 0x7fff_ffff_ffff_ffffi128 && (b.cursor_col as i128)
        + (dc as i128) <= 0x7fff_ffff_ffff_ffffi128
}

// ---- the notepad -------------------------------------------------------------------------

/// The model right after opening: the list from the index, the first section in the editor,
/// the key help on the status bar.
pub open spec fn started(file: Seq<u8>, index: Seq<SectionView>) -> Screen {
    let start = Screen {
        file: file,
        index: index,
        rows: seq![],
        selected: 0,
        list_scroll: 0,
        buffer: empty_state(),
        edit_scroll: (0u16, 0u16),
        focus: Focus::List,
        prompt: None,
        note: Note::Empty,
        dirty: false,
        quit: false,
    };
    Screen { note: Note::Help, ..loaded(refreshed(start), 0) }
}

/// How one write came out (the bytes are in the notepad's `file`).
enum WriteDone {
    Refused(MctxError),
    Abort,
    Stored,
}

impl App {
    /// Opens the notepad on the file at `path` whose bytes are `file`.
    pub fn open(path: &str, file: Vec<u8>) -> (r: Result<App, MctxError>)
        ensures
            match r {
                Ok(app) => index_of(file@).1 && app.wf() && app.path@ == path@
                    && app.store.path_view() == path@ && app.screen() =~~= started(
                    file@,
                    index_of(file@).0,
                ),
                Err(e) => !index_of(file@).1 && e == MctxError::InvalidUtf8,
            },
    {
        let store = match crate::store::Store::open(path, file.as_slice()) {
            Ok(s) => s,
            Err(e) => return Err(e),
        };
        let mut app = App {
            path: path.to_owned(),
            file: file,
            store: store,
            sections: Vec::new(),
            selected: 0,
            list_scroll: 0,
            buffer: Buffer::empty(),
            edit_scroll: (0, 0),
            focus: Focus::List,
            prompt: None,
            status: Status::Empty,
            dirty: false,
            quit: false,
        };
        proof {
            assert(rows_of_infos(app.sections@) =~= Seq::<Row>::empty());
            assert(app.screen() =~~= Screen {
                file: app.file@,
                index: app.store@,
                rows: seq![],
                selected: 0,
                list_scroll: 0,
                buffer: empty_state(),
                edit_scroll: (0u16, 0u16),
                focus: Focus::List,
                prompt: None,
                note: Note::Empty,
                dirty: false,
                quit: false,
            });
        }
        app.refresh_sections();
        app.load_section(0);
        app.status = Status::Help;
        Ok(app)
    }

    /// Reloads the list from the store's index (`refreshed`).
    #[verifier::rlimit(30)]
    fn refresh_sections(&mut self)
        requires
            old(self).wf(),
        ensures
            final(self).wf(),
            final(self).path == old(self).path,
            final(self).store.path_view() == old(self).store.path_view(),
            final(self).screen() =~~= refreshed(old(self).screen()),
    {
        let idx = self.store.index();
        let n = idx.len();
        let mut infos: Vec<SectionInfo> = Vec::new();
        let mut i: usize = 0;
        while i < n
            invariant
                i <= n,
                n == idx@.len(),
                crate::layout::section_views(idx@) == self.store@,
                infos@.len() == i,
                forall|j: int| 0 <= j < i ==> (#[trigger] infos@[j]).row() == rows_of(self.store@)[j],
            decreases n - i,
        {
            let s = &idx[i];
            let info = SectionInfo { name: s.name.clone(), tier: s.tier.clone(), version: s.version };
            proof {
                assert(self.store@[i as int] == idx@[i as int]@);
            }
            infos.push(info);
            i = i + 1;
        }
        proof {
            assert(rows_of_infos(infos@) =~~= rows_of(self.store@));
        }
        self.sections = infos;
        let len = self.sections.len();
        if self.selected >= len {
            self.selected = if len > 0 {
                len - 1
            } else {
                0
            };
        }
    }

    /// Loads list entry `idx` into the editor (`loaded`).
    fn load_section(&mut self, idx: usize)
        requires
            old(self).wf(),
        ensures
            final(self).wf(),
            final(self).path == old(self).path,
            final(self).store.path_view() == old(self).store.path_view(),
            final(self).screen() =~~= loaded(old(self).screen(), idx as int),
    {
        if idx < self.sections.len() {
            let name = self.sections[idx].name.clone();
            proof {
                assert(rows_of_infos(self.sections@)[idx as int].name == bytes_of(name));
            }
            match self.store.read(name.as_str(), self.file.as_slice()) {
                Ok(body) => {
                    self.buffer = Buffer::from_body(body.as_str());
                },
                Err(_) => {
                    self.buffer = Buffer::empty();
                    self.status = Status::CouldNotRead(name);
                },
            }
            self.edit_scroll = (0, 0);
            self.dirty = false;
        }
    }

    /// Writes `body` to section `name` with `tier` (`written_outcome`), keeping the new bytes.
    fn write_section(&mut self, name: &str, tier: &str, body: &str) -> (r: WriteDone)
        requires
            old(self).wf(),
        ensures
            final(self).wf(),
            final(self).path == old(self).path,
            final(self).store.path_view() == old(self).store.path_view(),
            ({
                let w = written_outcome(
                    old(self).file@,
                    encode_utf8(name@),
                    encode_utf8(tier@),
                    encode_utf8(body@),
                );
                &&& final(self).screen() =~~= after_written(old(self).screen(), w)
                &&& match w {
                    Written::Refused(e) => r == WriteDone::Refused(e),
                    Written::Abort => r == WriteDone::Abort,
                    Written::Stored(_) => r == WriteDone::Stored,
                }
            }),
    {
        if !crate::store::is_valid_tier(tier) {
            return WriteDone::Refused(MctxError::InvalidTier);
        }
        let n = self.file.len();
        let bytes = copy_range(self.file.as_slice(), 0, n);
        assert(self.file@.subrange(0, n as int) =~= self.file@);
        let text = match crate::unicode::string_from_utf8(bytes) {
            None => return WriteDone::Refused(MctxError::InvalidUtf8),
            Some(t) => t,
        };
        if !crate::store::can_write(text.as_str(), name) {
            return WriteDone::Abort;
        }
        match self.store.write(text.as_str(), name, tier, body) {
            Ok(new) => {
                self.file = new;
                WriteDone::Stored
            },
            Err(_) => {
                proof {
                    assert(false);
                }
                WriteDone::Abort
            },
        }
    }

    /// The first list entry named `name`.
    fn row_position(&self, name: &[u8]) -> (r: Option<usize>)
        ensures
            match r {
                Some(i) => row_named(self.screen().rows, name@) == Some(i as int) && i
                    < self.sections@.len(),
                None => row_named(self.screen().rows, name@) is None,
            },
    {
        let ghost rows = self.screen().rows;
        let mut i: usize = 0;
        while i < self.sections.len()
            invariant
                i <= self.sections@.len(),
                rows == self.screen().rows,
                rows.len() == self.sections@.len(),
                row_named(rows, name@) == row_named_from(rows, name@, i as int),
            decreases self.sections@.len() - i,
        {
            proof {
                assert(rows[i as int] == self.sections@[i as int].row());
            }
            if eq_bytes(self.sections[i].name.as_str().as_bytes(), name) {
                return Some(i);
            }
            i = i + 1;
        }
        None
    }

    /// Selects, loads and focuses list entry `i` (`opened`).
    fn open_row(&mut self, i: usize)
        requires
            old(self).wf(),
            i < old(self).sections@.len(),
        ensures
            final(self).wf(),
            final(self).path == old(self).path,
            final(self).store.path_view() == old(self).store.path_view(),
            final(self).screen() =~~= opened(old(self).screen(), i as int),
    {
        self.selected = i;
        self.load_section(i);
        self.focus = Focus::Edit;
    }

    /// Ctrl+S (`saved`).
    #[verifier::rlimit(30)]
    fn save(&mut self) -> (r: Effect)
        requires
            old(self).wf(),
        ensures
            final(self).wf(),
            final(self).path == old(self).path,
            final(self).store.path_view() == old(self).store.path_view(),
            final(self).screen() =~~= saved(old(self).screen()).0,
            r.outcome() == saved(old(self).screen()).1,
    {
        if self.selected >= self.sections.len() {
            self.status = Status::NoSelection;
            return Effect::Nothing;
        }
        let name = self.sections[self.selected].name.clone();
        let tier = self.sections[self.selected].tier.clone();
        let body = self.buffer.body_string();
        proof {
            assert(rows_of_infos(self.sections@)[self.selected as int].name == bytes_of(name));
            assert(rows_of_infos(self.sections@)[self.selected as int].tier == bytes_of(tier));
        }
        match self.write_section(name.as_str(), tier.as_str(), body.as_str()) {
            WriteDone::Abort => Effect::Abort,
            WriteDone::Refused(e) => {
                self.status = Status::SaveFailed(e);
                Effect::Nothing
            },
            WriteDone::Stored => {
                self.refresh_sections();
                let v = match self.row_position(name.as_str().as_bytes()) {
                    Some(i) => self.sections[i].version,
                    None => 0,
                };
                self.dirty = false;
                self.status = Status::Saved(name, v);
                let n = self.file.len();
                assert(self.file@.subrange(0, n as int) =~= self.file@);
                Effect::Persist(copy_range(self.file.as_slice(), 0, n))
            },
        }
    }
}

impl App {
    /// `c` on the list (`checkpointed`).
    #[verifier::rlimit(30)]
    fn open_checkpoint(&mut self) -> (r: Effect)
        requires
            old(self).wf(),
        ensures
            final(self).wf(),
            final(self).path == old(self).path,
            final(self).store.path_view() == old(self).store.path_view(),
            final(self).screen() =~~= checkpointed(old(self).screen()).0,
            r.outcome() == checkpointed(old(self).screen()).1,
    {
        let name = "checkpoint";
        let tier = "!volatile";
        let body = "";
        proof {
            reveal_strlit("checkpoint");
            reveal_strlit("!volatile");
            reveal_strlit("");
            vstd::string::is_ascii_spec_bytes(name);
            vstd::string::is_ascii_spec_bytes(tier);
            vstd::string::is_ascii_spec_bytes(body);
            assert(vstd::string::is_ascii(name));
            assert(vstd::string::is_ascii(tier));
            assert(vstd::string::is_ascii(body));
            assert(encode_utf8(name@) =~= checkpoint_name());
            assert(encode_utf8(tier@) =~= volatile_tag());
            assert(encode_utf8(body@) =~= Seq::<u8>::empty());
        }
        let mut effect = Effect::Nothing;
        if self.row_position(name.as_bytes()).is_none() {
            match self.write_section(name, tier, body) {
                WriteDone::Abort => return Effect::Abort,
                WriteDone::Refused(e) => {
                    self.status = Status::CheckpointFailed(e);
                    return Effect::Nothing;
                },
                WriteDone::Stored => {
                    self.refresh_sections();
                    let n = self.file.len();
                    assert(self.file@.subrange(0, n as int) =~= self.file@);
                    effect = Effect::Persist(copy_range(self.file.as_slice(), 0, n));
                },
            }
        }
        match self.row_position(name.as_bytes()) {
            Some(i) => {
                self.open_row(i);
                self.status = Status::EditingCheckpoint;
            },
            None => {},
        }
        effect
    }

    /// Enter on the prompt (`prompt_entered`); the prompt has been taken down.
    #[verifier::rlimit(30)]
    fn prompt_enter(&mut self, p: Prompt) -> (r: Effect)
        requires
            old(self).wf(),
            old(self).prompt is None,
        ensures
            final(self).wf(),
            final(self).path == old(self).path,
            final(self).store.path_view() == old(self).store.path_view(),
            final(self).screen() =~~= prompt_entered(old(self).screen(), p.prompt_view()).0,
            r.outcome() == prompt_entered(old(self).screen(), p.prompt_view()).1,
    {
        let input = trim_text(&p.input);
        match p.kind {
            PromptKind::NewName => {
                if input.as_str().as_bytes().len() == 0 {
                    self.prompt = Some(p);
                    self.status = Status::NameEmpty;
                } else {
                    let durable = "durable";
                    proof {
                        reveal_strlit("durable");
                        vstd::string::is_ascii_spec_bytes(durable);
                        assert(vstd::string::is_ascii(durable));
                        assert(encode_utf8(durable@) =~= durable_word());
                    }
                    self.prompt = Some(
                        Prompt {
                            kind: PromptKind::NewTier,
                            input: durable.to_owned(),
                            pending_name: Some(input),
                        },
                    );
                }
                Effect::Nothing
            },
            PromptKind::NewTier => {
                let name = match &p.pending_name {
                    Some(n) => n.clone(),
                    None => String::new(),
                };
                proof {
                    if p.pending_name is None {
                        assert(encode_utf8(Seq::<char>::empty()) =~= Seq::<u8>::empty());
                    }
                }
                let tier = match normalize_tier(input.as_str()) {
                    Some(t) => t,
                    None => {
                        self.prompt = Some(p);
                        self.status = Status::InvalidTier(input);
                        return Effect::Nothing;
                    },
                };
                match self.row_position(name.as_str().as_bytes()) {
                    Some(i) => {
                        self.open_row(i);
                        self.status = Status::OpenedExisting(name);
                        Effect::Nothing
                    },
                    None => self.create_section(name, tier),
                }
            },
        }
    }

    /// Writes a new section `name` empty with `tier` and opens it (`created`).
    #[verifier::rlimit(30)]
    fn create_section(&mut self, name: String, tier: &str) -> (r: Effect)
        requires
            old(self).wf(),
        ensures
            final(self).wf(),
            final(self).path == old(self).path,
            final(self).store.path_view() == old(self).store.path_view(),
            final(self).screen() =~~= created(
                old(self).screen(),
                bytes_of(name),
                encode_utf8(tier@),
            ).0,
            r.outcome() == created(old(self).screen(), bytes_of(name), encode_utf8(tier@)).1,
    {
        let empty = "";
        proof {
            reveal_strlit("");
            vstd::string::is_ascii_spec_bytes(empty);
            assert(vstd::string::is_ascii(empty));
            assert(encode_utf8(empty@) =~= Seq::<u8>::empty());
        }
        match self.write_section(name.as_str(), tier, empty) {
            WriteDone::Abort => Effect::Abort,
            WriteDone::Refused(e) => {
                self.status = Status::CreateFailed(e);
                Effect::Nothing
            },
            WriteDone::Stored => {
                self.refresh_sections();
                let n = self.file.len();
                assert(self.file@.subrange(0, n as int) =~= self.file@);
                let effect = Effect::Persist(copy_range(self.file.as_slice(), 0, n));
                match self.row_position(name.as_str().as_bytes()) {
                    Some(i) => {
                        self.open_row(i);
                        self.status = Status::Created(name, tier.to_owned());
                    },
                    None => {},
                }
                effect
            },
        }
    }

    /// A key while the prompt is open (`prompt_step`); the prompt has been taken down.
    #[verifier::rlimit(30)]
    fn on_prompt(&mut self, p: Prompt, key: KeyPress) -> (r: Effect)
        requires
            old(self).wf(),
            old(self).prompt is None,
        ensures
            final(self).wf(),
            final(self).path == old(self).path,
            final(self).store.path_view() == old(self).store.path_view(),
            final(self).screen() =~~= prompt_step(old(self).screen(), p.prompt_view(), key).0,
            r.outcome() == prompt_step(old(self).screen(), p.prompt_view(), key).1,
    {
        match key.code {
            KeyCode::Esc => {
                self.status = Status::Cancelled;
                Effect::Nothing
            },
            KeyCode::Enter => self.prompt_enter(p),
            KeyCode::Backspace => {
                let input = pop_text(&p.input);
                self.prompt = Some(Prompt { input: input, ..p });
                Effect::Nothing
            },
            KeyCode::Char(c) => {
                if !is_control_char(c) {
                    let base = if p.kind == PromptKind::NewTier && is_durable_word(&p.input) {
                        proof {
                            assert(encode_utf8(Seq::<char>::empty()) =~= Seq::<u8>::empty());
                        }
                        String::new()
                    } else {
                        p.input.clone()
                    };
                    let input = push_text(&base, c);
                    self.prompt = Some(Prompt { input: input, ..p });
                } else {
                    self.prompt = Some(p);
                }
                Effect::Nothing
            },
            _ => {
                self.prompt = Some(p);
                Effect::Nothing
            },
        }
    }
}

impl App {
    /// Types `c` at the cursor (a line break splits the line), unless the cursor is inside a
    /// character.
    fn insert(&mut self, c: char) -> (r: Effect)
        requires
            old(self).wf(),
        ensures
            final(self).wf(),
            final(self).path == old(self).path,
            final(self).store.path_view() == old(self).store.path_view(),
            ({
                let v = old(self).screen();
                let e = edited(v, is_char_boundary(cursor_line(v), v.buffer.col), inserted(v.buffer, c));
                final(self).screen() =~~= e.0 && r.outcome() == e.1
            }),
    {
        if !boundary_in_line(&self.buffer, self.buffer.cursor_col) {
            return Effect::Abort;
        }
        self.buffer.insert_char(c);
        self.dirty = true;
        Effect::Nothing
    }

    /// Moves the cursor by `dr` rows and `dc` bytes, unless a count would not fit an `i64`.
    fn move_by(&mut self, dr: i64, dc: i64) -> (r: Effect)
        requires
            old(self).wf(),
            -1 <= dr <= 1,
            -1 <= dc <= 1,
        ensures
            final(self).wf(),
            final(self).path == old(self).path,
            final(self).store.path_view() == old(self).store.path_view(),
            ({
                let v = old(self).screen();
                let e = edited(v, moves_ok(v.buffer, dr as int, dc as int), moved(v.buffer, dr as int, dc as int));
                final(self).screen() =~~= e.0 && r.outcome() == e.1
            }),
    {
        if !move_fits(&self.buffer, dr, dc) {
            return Effect::Abort;
        }
        self.buffer.move_cursor(dr, dc);
        self.dirty = true;
        Effect::Nothing
    }

    /// Deletes the character before the cursor, unless the cursor is inside a character.
    fn back(&mut self) -> (r: Effect)
        requires
            old(self).wf(),
        ensures
            final(self).wf(),
            final(self).path == old(self).path,
            final(self).store.path_view() == old(self).store.path_view(),
            ({
                let v = old(self).screen();
                let b = v.buffer;
                let e = edited(v, b.col > 0 ==> is_char_boundary(cursor_line(v), b.col - 1), backspaced(b));
                final(self).screen() =~~= e.0 && r.outcome() == e.1
            }),
    {
        if self.buffer.cursor_col > 0 && !boundary_in_line(&self.buffer, self.buffer.cursor_col - 1) {
            return Effect::Abort;
        }
        self.buffer.backspace();
        self.dirty = true;
        Effect::Nothing
    }

    /// Deletes the character at the cursor, unless the cursor is inside a character.
    fn del(&mut self) -> (r: Effect)
        requires
            old(self).wf(),
        ensures
            final(self).wf(),
            final(self).path == old(self).path,
            final(self).store.path_view() == old(self).store.path_view(),
            ({
                let v = old(self).screen();
                let b = v.buffer;
                let e = edited(
                    v,
                    b.col < cursor_line(v).len() ==> is_char_boundary(cursor_line(v), b.col),
                    deleted(b),
                );
                final(self).screen() =~~= e.0 && r.outcome() == e.1
            }),
    {
        if self.buffer.cursor_col < self.buffer.line_len() && !boundary_in_line(
            &self.buffer,
            self.buffer.cursor_col,
        ) {
            return Effect::Abort;
        }
        self.buffer.delete();
        self.dirty = true;
        Effect::Nothing
    }

    /// A character key with no prompt open.
    fn char_key(&mut self, c: char, ctrl: bool) -> (r: Effect)
        requires
            old(self).wf(),
            old(self).prompt is None,
        ensures
            final(self).wf(),
            final(self).path == old(self).path,
            final(self).store.path_view() == old(self).store.path_view(),
            ({
                let k = KeyPress { code: KeyCode::Char(c), ctrl: ctrl, pressed: true };
                let e = plain_step(old(self).screen(), k);
                final(self).screen() =~~= e.0 && r.outcome() == e.1
            }),
    {
        let list = self.focus == Focus::List;
        if c == 'q' && list && !self.dirty {
            self.quit = true;
            Effect::Nothing
        } else if c == 'Q' && list {
            self.quit = true;
            Effect::Nothing
        } else if c == 'a' && list {
            proof {
                assert(encode_utf8(Seq::<char>::empty()) =~= Seq::<u8>::empty());
            }
            self.prompt = Some(
                Prompt { kind: PromptKind::NewName, input: String::new(), pending_name: None },
            );
            Effect::Nothing
        } else if c == 'c' && list {
            self.open_checkpoint()
        } else if c == 's' && ctrl && !list {
            self.save()
        } else if !list && !is_control_char(c) {
            self.insert(c)
        } else {
            Effect::Nothing
        }
    }

    /// A key with no prompt open (`plain_step`).
    #[verifier::rlimit(30)]
    fn plain_key(&mut self, key: KeyPress) -> (r: Effect)
        requires
            old(self).wf(),
            old(self).prompt is None,
        ensures
            final(self).wf(),
            final(self).path == old(self).path,
            final(self).store.path_view() == old(self).store.path_view(),
            final(self).screen() =~~= plain_step(old(self).screen(), key).0,
            r.outcome() == plain_step(old(self).screen(), key).1,
    {
        let list = self.focus == Focus::List;
        match key.code {
            KeyCode::Char(c) => self.char_key(c, key.ctrl),
            KeyCode::Tab => {
                self.focus = if list {
                    Focus::Edit
                } else {
                    Focus::List
                };
                Effect::Nothing
            },
            KeyCode::Esc => {
                if !list {
                    self.focus = Focus::List;
                }
                Effect::Nothing
            },
            KeyCode::Enter => {
                if list {
                    self.load_section(self.selected);
                    self.focus = Focus::Edit;
                    Effect::Nothing
                } else {
                    self.insert('\n')
                }
            },
            KeyCode::Up => {
                if list {
                    if self.selected > 0 {
                        self.selected = self.selected - 1;
                    }
                    Effect::Nothing
                } else {
                    self.move_by(-1, 0)
                }
            },
            KeyCode::Down => {
                if list {
                    if self.selected < self.sections.len() && self.selected + 1 < self.sections.len() {
                        self.selected = self.selected + 1;
                    }
                    Effect::Nothing
                } else {
                    self.move_by(1, 0)
                }
            },
            KeyCode::Left => self.move_by(0, -1),
            KeyCode::Right => self.move_by(0, 1),
            KeyCode::Home => {
                self.buffer.home();
                self.dirty = true;
                Effect::Nothing
            },
            KeyCode::End => {
                self.buffer.end();
                self.dirty = true;
                Effect::Nothing
            },
            KeyCode::Backspace => self.back(),
            KeyCode::Delete => self.del(),
            KeyCode::Other => Effect::Nothing,
        }
    }

    /// Handles one key (`key_step`): releases are ignored, an open prompt takes every key,
    /// otherwise the key acts on the list or the editor. Gives back what the host must do.
    pub fn on_key(&mut self, key: KeyPress) -> (r: Effect)
        requires
            old(self).wf(),
        ensures
            final(self).wf(),
            final(self).path == old(self).path,
            final(self).store.path_view() == old(self).store.path_view(),
            final(self).screen() =~~= key_step(old(self).screen(), key).0,
            r.outcome() == key_step(old(self).screen(), key).1,
    {
        if !key.pressed {
            return Effect::Nothing;
        }
        match self.prompt.take() {
            Some(p) => self.on_prompt(p, key),
            None => self.plain_key(key),
        }
    }
}

/// The first visible position after keeping `pos` in a window `size` long that starts at
/// `start`: scrolled down just enough, or up to `pos`.
pub open spec fn scrolled(pos: int, start: int, size: int) -> int {
    if size > 0 && pos >= start + size {
        pos + 1 - size
    } else if pos < start {
        pos
    } else {
        start
    }
}

impl App {
    /// Keeps the selected entry inside a list `visible` rows tall.
    pub fn scroll_list(&mut self, visible: u16)
        ensures
            final(self).list_scroll == scrolled(
                old(self).selected as int,
                old(self).list_scroll as int,
                visible as int,
            ) as u16,
            final(self).screen() =~~= (Screen { list_scroll: final(self).list_scroll, ..old(self).screen() }),
            final(self).path == old(self).path,
            final(self).store.path_view() == old(self).store.path_view(),
            final(self).wf() == old(self).wf(),
    {
        let start = self.list_scroll as usize;
        let size = visible as usize;
        if size > 0 && self.selected >= start + size {
            self.list_scroll = (self.selected - (size - 1)) as u16;
        } else if self.selected < start {
            self.list_scroll = self.selected as u16;
        }
    }

    /// Keeps the cursor inside an editor box `h` rows by `w` columns, and gives the cursor's
    /// column and row inside the box.
    pub fn scroll_editor(&mut self, h: u16, w: u16) -> (r: (u16, u16))
        ensures
            ({
                let row = (old(self).buffer.cursor_row as u16) as int;
                let col = (old(self).buffer.cursor_col as u16) as int;
                let top = scrolled(row, old(self).edit_scroll.0 as int, h as int);
                let left = scrolled(col, old(self).edit_scroll.1 as int, w as int);
                &&& final(self).edit_scroll == (top as u16, left as u16)
                &&& r == ((col - left) as u16, (row - top) as u16)
            }),
            final(self).screen() =~~= (Screen { edit_scroll: final(self).edit_scroll, ..old(self).screen() }),
            final(self).path == old(self).path,
            final(self).store.path_view() == old(self).store.path_view(),
            final(self).wf() == old(self).wf(),
    {
        let row = self.buffer.cursor_row as u16;
        let col = self.buffer.cursor_col as u16;
        let (mut top, mut left) = self.edit_scroll;
        if h > 0 && row as u32 >= top as u32 + h as u32 {
            top = row - (h - 1);
        } else if row < top {
            top = row;
        }
        if w > 0 && col as u32 >= left as u32 + w as u32 {
            left = col - (w - 1);
        } else if col < left {
            left = col;
        }
        self.edit_scroll = (top, left);
        (col - left, row - top)
    }
}

} // verus!
