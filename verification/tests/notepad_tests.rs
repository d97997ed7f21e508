use mctx::buffer::Buffer;
use mctx::date::{date_of_seconds, make_header, new_document};
use mctx::notepad::{
    normalize_tier, pop_text, push_text, trim_text, App, Effect, Focus, KeyCode, KeyPress,
    PromptKind, Status,
};

fn today_ymd() -> (i64, u32, u32) {
    let secs = std::time::SystemTime::now()
        .duration_since(std::time::UNIX_EPOCH)
        .map(|d| d.as_secs() as i64)
        .unwrap_or(0);
    date_of_seconds(secs)
}

#[test]
fn date_is_iso() {
    let (y, m, d) = today_ymd();
    assert!((2024..=2100).contains(&y));
    assert!((1..=12).contains(&m));
    assert!((1..=31).contains(&d));
    let header = make_header(y, m, d);
    assert!(header.starts_with("#mctx v1.1 | updated:"), "{header}");
}

#[test]
fn insert_and_backspace() {
    let mut b = Buffer::empty();
    for c in ['h', 'i'] {
        b.insert_char(c);
    }
    assert_eq!(b.lines, vec!["hi"]);
    b.backspace();
    assert_eq!(b.lines, vec!["h"]);
}

#[test]
fn newline_splits_line() {
    let mut b = Buffer::from_body("abc");
    b.cursor_col = 1;
    b.insert_char('\n');
    assert_eq!(b.lines, vec!["a", "bc"]);
    assert_eq!((b.cursor_row, b.cursor_col), (1, 0));
}

#[test]
fn backspace_joins_lines() {
    let mut b = Buffer::from_body("ab\ncd");
    b.cursor_row = 1;
    b.cursor_col = 0;
    b.backspace();
    assert_eq!(b.lines, vec!["abcd"]);
    assert_eq!((b.cursor_row, b.cursor_col), (0, 2));
}

#[test]
fn delete_at_line_end_joins() {
    let mut b = Buffer::from_body("ab\ncd");
    b.cursor_row = 0;
    b.cursor_col = 2;
    b.delete();
    assert_eq!(b.lines, vec!["abcd"]);
}

#[test]
fn body_roundtrip() {
    let b = Buffer::from_body("a\nb\n");
    assert_eq!(b.lines, vec!["a", "b"]);
    assert_eq!(b.body_string(), "a\nb\n");
}

#[test]
fn empty_body() {
    let b = Buffer::from_body("");
    assert_eq!(b.lines, vec![""]);
    assert_eq!(b.body_string(), "");
}

#[test]
fn cursor_movement_clamps() {
    let mut b = Buffer::from_body("ab\ncde");
    b.cursor_row = 0;
    b.cursor_col = 0;
    b.move_cursor(-1, -5);
    assert_eq!((b.cursor_row, b.cursor_col), (0, 0));
    b.move_cursor(99, 99);
    assert_eq!((b.cursor_row, b.cursor_col), (1, 3));
}

#[test]
fn tier_normalization() {
    assert_eq!(normalize_tier("fixed"), Some("!fixed"));
    assert_eq!(normalize_tier("!volatile"), Some("!volatile"));
    assert_eq!(normalize_tier("FIXED"), None);
    assert_eq!(normalize_tier("eternal"), None);
}

// ---- more of the buffer -------------------------------------------------------------------

#[test]
fn tier_normalization_trims_whitespace() {
    assert_eq!(normalize_tier("  durable \t"), Some("!durable"));
    assert_eq!(normalize_tier("\u{3000}volatile\u{a0}"), Some("!volatile"));
    assert_eq!(normalize_tier("! fixed"), None);
    assert_eq!(normalize_tier(""), None);
    assert_eq!(normalize_tier("fixedd"), None);
}

#[test]
fn body_roundtrip_keeps_lines() {
    let b = Buffer::from_body("x\n\ny\n");
    assert_eq!(b.lines, vec!["x", "", "y"]);
    assert_eq!(b.body_string(), "x\n\ny\n");
    let c = Buffer::from_body("no newline");
    assert_eq!(c.body_string(), "no newline\n");
}

#[test]
fn backspace_undoes_insert() {
    let mut b = Buffer::from_body("abc\ndef");
    b.cursor_row = 1;
    b.cursor_col = 2;
    let before = b.clone();
    b.insert_char('Z');
    assert_eq!(b.lines, vec!["abc", "deZf"]);
    b.backspace();
    assert_eq!(b, before);
    b.insert_char('\n');
    assert_eq!(b.lines, vec!["abc", "de", "f"]);
    b.backspace();
    assert_eq!(b, before);
}

#[test]
fn edits_at_the_edges_do_nothing() {
    let mut b = Buffer::from_body("ab");
    b.backspace();
    assert_eq!((b.lines.clone(), b.cursor_row, b.cursor_col), (vec!["ab".to_string()], 0, 0));
    b.end();
    assert_eq!(b.cursor_col, 2);
    b.delete();
    assert_eq!(b.lines, vec!["ab"]);
    b.home();
    assert_eq!(b.cursor_col, 0);
    assert_eq!(b.line_len(), 2);
}

#[test]
fn multibyte_characters_are_edited_whole() {
    let mut b = Buffer::from_body("aé");
    b.cursor_col = 1;
    b.delete();
    assert_eq!(b.lines, vec!["a"]);
    b.insert_char('ü');
    assert_eq!(b.lines, vec!["aü"]);
    assert_eq!(b.cursor_col, 2);
}

// ---- text input ----------------------------------------------------------------------------

#[test]
fn text_input_helpers() {
    assert_eq!(trim_text(&"  na me \n".to_string()), "na me");
    assert_eq!(trim_text(&" \t ".to_string()), "");
    assert_eq!(pop_text(&"abé".to_string()), "ab");
    assert_eq!(pop_text(&"".to_string()), "");
    assert_eq!(push_text(&"ab".to_string(), '€'), "ab€");
}

// ---- dates -----------------------------------------------------------------------------------

#[test]
fn dates_from_seconds() {
    assert_eq!(date_of_seconds(0), (1970, 1, 1));
    assert_eq!(date_of_seconds(86_399), (1970, 1, 1));
    assert_eq!(date_of_seconds(-1), (1969, 12, 31));
    assert_eq!(date_of_seconds(951_782_400), (2000, 2, 29));
    assert_eq!(date_of_seconds(1_786_147_200), (2026, 8, 8));
    assert_eq!(make_header(2026, 8, 8), "#mctx v1.1 | updated:2026-08-08");
    assert_eq!(make_header(-44, 3, 15), "#mctx v1.1 | updated:-044-03-15");
}

#[test]
fn new_document_skeleton() {
    assert_eq!(
        new_document(2026, 1, 2),
        "#mctx v1.1 | updated:2026-01-02\n%%INDEX\n%%END-INDEX\n%%@checkpoint !volatile v:1\n(notes…)\n%%END\n"
    );
}

// ---- the notepad ---------------------------------------------------------------------------

fn key(code: KeyCode) -> KeyPress {
    KeyPress { code, ctrl: false, pressed: true }
}

fn type_text(app: &mut App, text: &str) -> Vec<Effect> {
    text.chars().map(|ch| app.on_key(key(KeyCode::Char(ch)))).collect()
}

fn fresh_app() -> App {
    let file = format!("{}\n", make_header(2026, 8, 8)).into_bytes();
    App::open("memory.mctx", file).unwrap()
}

#[test]
fn new_section_flow_creates_section() {
    let mut app = fresh_app();
    app.on_key(key(KeyCode::Char('a')));
    type_text(&mut app, "identity");
    app.on_key(key(KeyCode::Enter));
    type_text(&mut app, "fixed");
    let effect = app.on_key(key(KeyCode::Enter));
    assert!(
        app.sections.iter().any(|s| s.name == "identity" && s.tier == "!fixed"),
        "identity section created"
    );
    assert_eq!(app.focus, Focus::Edit);
    assert_eq!(effect, Effect::Persist(app.file.clone()));
    assert_eq!(app.status, Status::Created("identity".to_string(), "!fixed".to_string()));
}

#[test]
fn typing_replaces_default_tier() {
    let mut app = fresh_app();
    app.on_key(key(KeyCode::Char('a')));
    type_text(&mut app, "x");
    app.on_key(key(KeyCode::Enter));
    assert_eq!(app.prompt.as_ref().unwrap().kind, PromptKind::NewTier);
    assert_eq!(app.prompt.as_ref().unwrap().input, "durable");
    app.on_key(key(KeyCode::Char('f')));
    assert_eq!(
        app.prompt.as_ref().unwrap().input, "f",
        "typing replaces the 'durable' default, not appends"
    );
}

#[test]
fn invalid_tier_keeps_prompt_open() {
    let mut app = fresh_app();
    app.on_key(key(KeyCode::Char('a')));
    type_text(&mut app, "x");
    app.on_key(key(KeyCode::Enter));
    type_text(&mut app, "eternal");
    app.on_key(key(KeyCode::Enter));
    assert!(app.prompt.is_some(), "prompt stays open on invalid tier");
    assert_eq!(app.status, Status::InvalidTier("eternal".to_string()));
    assert!(app.sections.is_empty(), "no section created");
}

#[test]
fn save_bumps_version_and_clears_dirty() {
    let mut app = fresh_app();
    app.on_key(key(KeyCode::Char('a')));
    type_text(&mut app, "tasks");
    app.on_key(key(KeyCode::Enter));
    app.on_key(key(KeyCode::Enter));
    assert_eq!(app.focus, Focus::Edit);
    type_text(&mut app, "task: one");
    app.dirty = true;
    let effect = app.on_key(KeyPress { code: KeyCode::Char('s'), ctrl: true, pressed: true });
    assert!(!app.dirty, "save clears dirty");
    let v = app.sections.iter().find(|s| s.name == "tasks").map(|s| s.version).unwrap();
    assert_eq!(v, 2, "created at v1, this save bumped to v2");
    assert_eq!(app.store.read("tasks", &app.file).unwrap(), "task: one\n");
    assert_eq!(effect, Effect::Persist(app.file.clone()));
    assert_eq!(app.status, Status::Saved("tasks".to_string(), 2));
}

#[test]
fn empty_name_is_refused_and_escape_cancels() {
    let mut app = fresh_app();
    app.on_key(key(KeyCode::Char('a')));
    type_text(&mut app, "   ");
    app.on_key(key(KeyCode::Enter));
    assert_eq!(app.status, Status::NameEmpty);
    assert_eq!(app.prompt.as_ref().unwrap().kind, PromptKind::NewName);
    app.on_key(key(KeyCode::Backspace));
    assert_eq!(app.prompt.as_ref().unwrap().input, "  ");
    app.on_key(key(KeyCode::Esc));
    assert!(app.prompt.is_none());
    assert_eq!(app.status, Status::Cancelled);
}

#[test]
fn checkpoint_key_creates_and_opens_checkpoint() {
    let mut app = fresh_app();
    let effect = app.on_key(key(KeyCode::Char('c')));
    assert!(matches!(effect, Effect::Persist(_)));
    assert_eq!(app.focus, Focus::Edit);
    assert_eq!(app.status, Status::EditingCheckpoint);
    assert_eq!(app.sections.len(), 1);
    assert_eq!(app.sections[0].name, "checkpoint");
    assert_eq!(app.sections[0].tier, "!volatile");
    assert_eq!(app.sections[0].version, 1);
    app.on_key(key(KeyCode::Tab));
    assert_eq!(app.focus, Focus::List);
    assert_eq!(app.on_key(key(KeyCode::Char('c'))), Effect::Nothing);
    assert_eq!(app.focus, Focus::Edit);
}

#[test]
fn quit_waits_for_a_clean_buffer() {
    let mut app = fresh_app();
    app.dirty = true;
    app.on_key(key(KeyCode::Char('q')));
    assert!(!app.quit);
    app.on_key(key(KeyCode::Char('Q')));
    assert!(app.quit);
    let mut other = fresh_app();
    other.on_key(KeyPress { code: KeyCode::Char('q'), ctrl: false, pressed: false });
    assert!(!other.quit, "releases are ignored");
    other.on_key(key(KeyCode::Char('q')));
    assert!(other.quit);
}

#[test]
fn typing_inside_a_character_stops() {
    let mut app = fresh_app();
    app.on_key(key(KeyCode::Char('c')));
    type_text(&mut app, "é");
    assert_eq!(app.buffer.cursor_col, 1);
    assert_eq!(app.on_key(key(KeyCode::Char('x'))), Effect::Abort);
}

#[test]
fn list_navigation_and_loading() {
    let file = b"#h\n%%INDEX\nb:!fixed:v3:0000000071\na:!durable:v1:0000000097\n%%END-INDEX\n%%@b !fixed v:3\nbee\n%%END\n%%@a !durable v:1\nay\n%%END\n".to_vec();
    let mut app = App::open("m.mctx", file).unwrap();
    assert_eq!(app.sections.len(), 2);
    assert_eq!(app.buffer.lines, vec!["bee"]);
    app.on_key(key(KeyCode::Down));
    assert_eq!(app.selected, 1);
    app.on_key(key(KeyCode::Down));
    assert_eq!(app.selected, 1);
    app.on_key(key(KeyCode::Enter));
    assert_eq!(app.focus, Focus::Edit);
    assert_eq!(app.buffer.lines, vec!["ay"]);
    app.on_key(key(KeyCode::End));
    assert_eq!(app.buffer.cursor_col, 2);
    assert!(app.dirty);
    app.on_key(key(KeyCode::Esc));
    app.on_key(key(KeyCode::Up));
    assert_eq!(app.selected, 0);
}

#[test]
fn scrolling_keeps_cursor_in_view() {
    let mut app = fresh_app();
    app.selected = 12;
    app.scroll_list(5);
    assert_eq!(app.list_scroll, 8);
    app.selected = 3;
    app.scroll_list(5);
    assert_eq!(app.list_scroll, 3);
    app.buffer = Buffer::from_body("a\nb\nc\nd\ne\nf\n");
    app.buffer.cursor_row = 5;
    app.buffer.cursor_col = 1;
    let at = app.scroll_editor(3, 10);
    assert_eq!(app.edit_scroll, (3, 0));
    assert_eq!(at, (1, 2));
}

#[test]
fn saved_text_loads_back_and_index_follows_file() {
    let mut app = fresh_app();
    app.on_key(key(KeyCode::Char('a')));
    type_text(&mut app, "notes");
    app.on_key(key(KeyCode::Enter));
    app.on_key(key(KeyCode::Enter));
    type_text(&mut app, "line one");
    app.on_key(key(KeyCode::Enter));
    type_text(&mut app, "line two");
    let lines = app.buffer.lines.clone();
    let effect = app.on_key(KeyPress { code: KeyCode::Char('s'), ctrl: true, pressed: true });
    let Effect::Persist(bytes) = effect else { panic!("save stores the file") };
    assert_eq!(bytes, app.file);
    let reopened = mctx::store::Store::open("memory.mctx", &bytes).unwrap();
    assert_eq!(reopened.index(), app.store.index());
    app.on_key(key(KeyCode::Esc));
    app.on_key(key(KeyCode::Enter));
    assert_eq!(app.buffer.lines, lines);
    assert!(!app.dirty);
}

#[test]
fn checkpoint_key_beside_checkpointer_adds_a_row() {
    let mut app = fresh_app();
    app.on_key(key(KeyCode::Char('a')));
    type_text(&mut app, "checkpointer");
    app.on_key(key(KeyCode::Enter));
    type_text(&mut app, "volatile");
    app.on_key(key(KeyCode::Enter));
    app.on_key(key(KeyCode::Tab));
    assert_eq!(app.focus, Focus::List);
    let effect = app.on_key(key(KeyCode::Char('c')));
    assert!(matches!(effect, Effect::Persist(_)));
    assert_eq!(app.sections.len(), 2);
    assert_eq!(app.sections[0].name, "checkpointer");
    assert_eq!(app.sections[0].version, 1);
    assert_eq!(app.sections[1].name, "checkpoint");
    assert_eq!(app.sections[1].version, 1);
    assert_eq!(app.sections[app.selected].name, "checkpoint");
}

#[test]
fn percent_name_saves_and_loads_back() {
    let mut app = fresh_app();
    app.on_key(key(KeyCode::Char('a')));
    type_text(&mut app, "50%");
    app.on_key(key(KeyCode::Enter));
    app.on_key(key(KeyCode::Enter));
    assert_eq!(app.focus, Focus::Edit);
    type_text(&mut app, "see %%END below");
    let effect = app.on_key(KeyPress { code: KeyCode::Char('s'), ctrl: true, pressed: true });
    assert_eq!(effect, Effect::Persist(app.file.clone()));
    assert_eq!(app.store.read("50%", &app.file).unwrap(), "see %%END below\n");
    assert_eq!(app.sections[app.selected].name, "50%");
    assert_eq!(app.sections[app.selected].version, 2);
    assert_eq!(app.status, Status::Saved("50%".to_string(), 2));
}
