use mctx::layout::Section;
use mctx::store::{can_write, is_valid_tier, MctxError, Store};

const HEADER: &str = "#mctx v1.1 | updated:2026-08-08\n";

/// A store and the bytes of its file.
struct Disk {
    store: Store,
    bytes: Vec<u8>,
}

impl Disk {
    fn new(content: &str) -> Disk {
        let bytes = content.as_bytes().to_vec();
        let store = Store::open("memory.mctx", &bytes).unwrap();
        Disk { store, bytes }
    }

    fn text(&self) -> String {
        String::from_utf8(self.bytes.clone()).unwrap()
    }

    fn write(&mut self, name: &str, tier: &str, body: &str) -> Result<(), MctxError> {
        let text = self.text();
        assert!(can_write(&text, name));
        let new = self.store.write(&text, name, tier, body)?;
        self.bytes = new;
        Ok(())
    }

    fn checkpoint(&mut self, body: &str) -> Result<(), MctxError> {
        let text = self.text();
        let new = self.store.checkpoint(&text, body)?;
        self.bytes = new;
        Ok(())
    }

    fn read(&self, name: &str) -> Result<String, MctxError> {
        self.store.read(name, &self.bytes)
    }

    fn version_of(&self, name: &str) -> u32 {
        self.store
            .index()
            .iter()
            .find(|s| s.name == name)
            .unwrap_or_else(|| panic!("section '{name}' missing from index"))
            .version
    }

    /// Every index offset points literally at its `%%@<name>` marker.
    fn assert_byte_exact(&self) {
        for section in self.store.index() {
            let marker = format!("%%@{}", section.name);
            let start = section.offset as usize;
            assert!(start + marker.len() <= self.bytes.len(), "offset out of bounds");
            assert_eq!(&self.bytes[start..start + marker.len()], marker.as_bytes());
        }
    }
}

fn read_expect(disk: &Disk, name: &str, needle: &str) -> String {
    let body = disk.read(name).unwrap_or_else(|e| panic!("read '{name}': {e:?}"));
    assert!(body.contains(needle), "section '{name}' missing '{needle}': {body:?}");
    body
}

const IDENTITY: &str = "user{alias,role}:\n  \"devil2\",\"student/builder\"\n";
const PROJECTS: &str =
    "projects[2]{id,title,status}:\n  p1,\"SmartTodo\",\"in progress\"\n  p2,\"Zoya\",\"active\"\n";
const PROJECTS2: &str =
    "projects[2]{id,title,status}:\n  p1,\"SmartTodo\",\"shipped\"\n  p2,\"Zoya\",\"active\"\n";
const LOG: &str = "memories[1]{date,fact}:\n  \"2026-08-08\",\"built the .mctx Rust lib\"\n";

fn three_sections() -> Disk {
    let mut disk = Disk::new(HEADER);
    disk.write("identity", "!fixed", IDENTITY).unwrap();
    disk.write("projects", "!durable", PROJECTS).unwrap();
    disk.write("log", "!volatile", LOG).unwrap();
    disk
}

#[test]
fn appends_across_tiers_give_exact_file() {
    let disk = three_sections();
    let expected = "#mctx v1.1 | updated:2026-08-08\n%%INDEX\nidentity:!fixed:v1:0000000142\nprojects:!durable:v1:0000000219\nlog:!volatile:v1:0000000333\n%%END-INDEX\n%%@identity !fixed v:1\nuser{alias,role}:\n  \"devil2\",\"student/builder\"\n%%END\n\n%%@projects !durable v:1\nprojects[2]{id,title,status}:\n  p1,\"SmartTodo\",\"in progress\"\n  p2,\"Zoya\",\"active\"\n%%END\n\n%%@log !volatile v:1\nmemories[1]{date,fact}:\n  \"2026-08-08\",\"built the .mctx Rust lib\"\n%%END\n";
    assert_eq!(disk.text(), expected);
    assert_eq!(
        disk.store.index(),
        &[
            Section { name: "identity".into(), tier: "!fixed".into(), version: 1, offset: 142 },
            Section { name: "projects".into(), tier: "!durable".into(), version: 1, offset: 219 },
            Section { name: "log".into(), tier: "!volatile".into(), version: 1, offset: 333 },
        ]
    );
    disk.assert_byte_exact();
}

#[test]
fn seek_read_one_section() {
    let disk = three_sections();
    assert_eq!(read_expect(&disk, "projects", "SmartTodo"), PROJECTS);
    assert_eq!(read_expect(&disk, "identity", "devil2"), IDENTITY);
    assert_eq!(disk.read("log").unwrap(), LOG);
}

#[test]
fn update_bumps_version_in_place() {
    let mut disk = three_sections();
    assert_eq!(disk.version_of("projects"), 1, "first write is v:1");
    disk.write("projects", "!durable", PROJECTS2).unwrap();
    assert_eq!(disk.version_of("projects"), 2, "update bumps v:");
    read_expect(&disk, "projects", "shipped");
    assert_eq!(disk.read("log").unwrap(), LOG);
    assert_eq!(disk.read("identity").unwrap(), IDENTITY);
    assert_eq!(disk.store.index().len(), 3);
    assert_eq!(disk.store.index()[2].offset, 328);
    disk.assert_byte_exact();
}

#[test]
fn checkpoint_overwrites() {
    let mut disk = three_sections();
    disk.checkpoint("task: implement .mctx rust lib\nnext: wire into agent\nfiles_touched: src/mctx.rs\nblockers: none\n")
        .unwrap();
    read_expect(&disk, "checkpoint", "next: wire into agent");
    disk.checkpoint("task: implement .mctx rust lib\nnext: push to github\ndone: verified byte offsets\n")
        .unwrap();
    assert_eq!(disk.version_of("checkpoint"), 2, "checkpoint overwrites");
    assert_eq!(disk.store.index().iter().filter(|s| s.name == "checkpoint").count(), 1);
    let cp = disk.store.index().iter().find(|s| s.name == "checkpoint").unwrap();
    assert_eq!(cp.tier, "!volatile");
    read_expect(&disk, "checkpoint", "push to github");
    disk.assert_byte_exact();
}

#[test]
fn rebuild_keeps_versions_and_offsets() {
    let mut disk = three_sections();
    disk.write("projects", "!durable", PROJECTS2).unwrap();
    let before = disk.text();
    let rebuilt = disk.store.rebuild_index(&before);
    assert_eq!(rebuilt, before.as_bytes(), "a file the store wrote is its own rebuild");
    disk.bytes = rebuilt;
    disk.store.reload(&disk.bytes).unwrap();
    assert_eq!(disk.version_of("projects"), 2, "rebuild keeps versions");
    disk.assert_byte_exact();
    for section in disk.store.index() {
        assert!(is_valid_tier(&section.tier), "invalid tier {}", section.tier);
    }
}

#[test]
fn rebuild_repairs_hand_edited_offsets() {
    let mut disk = three_sections();
    let edited = disk.text().replace("user{alias,role}", "user{alias,role,extra,fields}");
    disk.bytes = edited.clone().into_bytes();
    disk.store.reload(&disk.bytes).unwrap();
    assert_eq!(disk.read("projects"), Err(MctxError::BadOffset(219)));
    disk.bytes = disk.store.rebuild_index(&edited);
    disk.store.reload(&disk.bytes).unwrap();
    disk.assert_byte_exact();
    assert_eq!(disk.read("projects").unwrap(), PROJECTS);
    let again = disk.store.rebuild_index(&disk.text());
    assert_eq!(again, disk.bytes, "rebuilding twice changes nothing");
}

#[test]
fn fourth_tier_is_rejected() {
    let mut disk = three_sections();
    let before = disk.bytes.clone();
    assert_eq!(disk.write("bad", "!eternal", "x\n"), Err(MctxError::InvalidTier));
    assert_eq!(disk.bytes, before);
    assert_eq!(disk.store.index().len(), 3);
    assert!(!is_valid_tier("fixed"));
    assert!(is_valid_tier("!fixed"));
}

#[test]
fn body_without_trailing_newline_reads_back() {
    let mut disk = Disk::new(HEADER);
    disk.write("note", "!volatile", "task: no trailing newline").unwrap();
    assert_eq!(disk.read("note").unwrap(), "task: no trailing newline\n");
    assert_eq!(
        disk.text(),
        "#mctx v1.1 | updated:2026-08-08\n%%INDEX\nnote:!volatile:v1:0000000082\n%%END-INDEX\n\n%%@note !volatile v:1\ntask: no trailing newline\n%%END\n"
    );
    disk.assert_byte_exact();
    disk.write("note", "!volatile", "second").unwrap();
    assert_eq!(
        disk.text(),
        "#mctx v1.1 | updated:2026-08-08\n%%INDEX\nnote:!volatile:v2:0000000081\n%%END-INDEX\n%%@note !volatile v:2\nsecond\n%%END\n"
    );
}

#[test]
fn missing_section_is_not_found() {
    let disk = three_sections();
    assert_eq!(disk.read("nope"), Err(MctxError::NotFound));
    assert_eq!(disk.store.locate("log"), Some(2));
    assert_eq!(disk.store.locate("nope"), None);
}

#[test]
fn invalid_utf8_in_index_is_reported() {
    let mut bytes = b"#h\n%%INDEX\na:!fixed:v1:0000000000\n".to_vec();
    bytes.extend_from_slice(&[0xff, 0xfe, b'\n']);
    bytes.extend_from_slice(b"%%END-INDEX\n");
    assert_eq!(Store::open("x.mctx", &bytes).err(), Some(MctxError::InvalidUtf8));
    let good = b"#h\n%%INDEX\nx:!fixed:v1:0000000046\n%%END-INDEX\n%%@x !fixed v:1\n\xff\n%%END\n";
    let store = Store::open("x.mctx", good).unwrap();
    assert_eq!(store.read("x", good), Err(MctxError::InvalidUtf8));
    assert_eq!(store.path(), "x.mctx");
}

#[test]
fn index_lines_are_parsed_leniently() {
    let content = b"#h\n%%INDEX\nnoversion\nbad:!fixed:vX:0000000007\nlate:!durable:v3:12\n%%END-INDEX\nrest:!fixed:v1:1\n";
    let store = Store::open("m", content).unwrap();
    assert_eq!(
        store.index(),
        &[
            Section { name: "bad".into(), tier: "!fixed".into(), version: 1, offset: 7 },
            Section { name: "late".into(), tier: "!durable".into(), version: 3, offset: 12 },
        ]
    );
}

#[test]
fn write_on_section_without_end_is_undefined() {
    let text = "#h\n%%INDEX\n%%END-INDEX\n%%@open !fixed v:1\nno end\n";
    assert!(!can_write(text, "open"));
    assert!(can_write(text, "other"));
    let max = "#h\n%%@full !fixed v:4294967295\nx\n%%END\n";
    assert!(!can_write(max, "full"));
}

#[test]
fn marker_versions_come_from_the_first_line() {
    let mut disk = Disk::new("#h\n%%@s !fixed v:41\nbody v:99\n%%END\n");
    assert!(disk.store.index().is_empty());
    disk.write("s", "!durable", "new\n").unwrap();
    assert_eq!(disk.version_of("s"), 42);
    assert_eq!(disk.store.index()[0].tier, "!durable");
    assert_eq!(disk.read("s").unwrap(), "new\n");
}

#[test]
fn prefix_names_are_separate_sections() {
    let mut disk = Disk::new(HEADER);
    disk.write("notes", "!durable", "long\n").unwrap();
    disk.write("note", "!volatile", "short\n").unwrap();
    assert_eq!(
        disk.text(),
        "#mctx v1.1 | updated:2026-08-08\n%%INDEX\nnotes:!durable:v1:0000000110\nnote:!volatile:v1:0000000144\n%%END-INDEX\n%%@notes !durable v:1\nlong\n%%END\n\n%%@note !volatile v:1\nshort\n%%END\n"
    );
    assert_eq!(disk.read("notes").unwrap(), "long\n");
    assert_eq!(disk.read("note").unwrap(), "short\n");
    disk.write("note", "!volatile", "again\n").unwrap();
    assert_eq!(disk.version_of("note"), 2);
    assert_eq!(disk.version_of("notes"), 1);
    assert_eq!(disk.read("notes").unwrap(), "long\n");
    disk.assert_byte_exact();
}

#[test]
fn log_after_logbook_is_appended() {
    let mut disk = Disk::new(HEADER);
    disk.write("logbook", "!durable", "a\n").unwrap();
    disk.write("log", "!durable", "b\n").unwrap();
    assert_eq!(
        disk.text(),
        "#mctx v1.1 | updated:2026-08-08\n%%INDEX\nlogbook:!durable:v1:0000000110\nlog:!durable:v1:0000000143\n%%END-INDEX\n%%@logbook !durable v:1\na\n%%END\n\n%%@log !durable v:1\nb\n%%END\n"
    );
    assert_eq!(disk.version_of("logbook"), 1);
    assert_eq!(disk.version_of("log"), 1);
    assert_eq!(disk.read("logbook").unwrap(), "a\n");
    assert_eq!(disk.read("log").unwrap(), "b\n");
}

#[test]
fn checkpoint_is_not_checkpointer() {
    let mut disk = Disk::new(HEADER);
    disk.write("checkpointer", "!volatile", "x\n").unwrap();
    disk.checkpoint("y\n").unwrap();
    assert_eq!(disk.store.index().len(), 2);
    assert_eq!(disk.version_of("checkpointer"), 1);
    assert_eq!(disk.version_of("checkpoint"), 1);
    assert_eq!(disk.read("checkpointer").unwrap(), "x\n");
    assert_eq!(disk.read("checkpoint").unwrap(), "y\n");
}

#[test]
fn mid_line_marker_text_is_no_section() {
    let mut disk = Disk::new(HEADER);
    disk.write("a", "!durable", "see %%@y here\n").unwrap();
    assert_eq!(
        disk.text(),
        "#mctx v1.1 | updated:2026-08-08\n%%INDEX\na:!durable:v1:0000000078\n%%END-INDEX\n\n%%@a !durable v:1\nsee %%@y here\n%%END\n"
    );
    assert_eq!(disk.store.index().len(), 1);
    assert_eq!(disk.read("y"), Err(MctxError::NotFound));
    assert_eq!(disk.read("a").unwrap(), "see %%@y here\n");
    disk.write("y", "!durable", "real\n").unwrap();
    assert_eq!(disk.version_of("y"), 1);
    assert_eq!(disk.read("a").unwrap(), "see %%@y here\n");
    assert_eq!(disk.read("y").unwrap(), "real\n");
    disk.assert_byte_exact();
}

#[test]
fn stale_offset_at_another_marker_is_refused() {
    let disk = three_sections();
    let renamed = disk.text().replace("%%@identity !fixed", "%%@identitx !fixed");
    assert_eq!(disk.store.read("identity", renamed.as_bytes()), Err(MctxError::BadOffset(142)));
    let longer = disk.text().replace("%%@identity !fixed", "%%@identityy !fixe");
    assert_eq!(disk.store.read("identity", longer.as_bytes()), Err(MctxError::BadOffset(142)));
    assert_eq!(disk.store.read("identity", disk.text().as_bytes()).unwrap(), IDENTITY);
}

#[test]
fn invalid_tier_is_refused_on_any_file() {
    let text = "#h\n%%INDEX\n%%END-INDEX\n%%@open !fixed v:1\nno end\n";
    let mut store = Store::open("m", text.as_bytes()).unwrap();
    assert!(!can_write(text, "open"));
    assert_eq!(store.write(text, "open", "!eternal", "x\n"), Err(MctxError::InvalidTier));
    assert!(store.index().is_empty());
}

#[test]
fn cli_set_get_list_roundtrip() {
    let mut disk = Disk::new(HEADER);
    disk.write("identity", "!fixed", "user{alias}: \"devil2\"").unwrap();
    let body = disk.read("identity").unwrap();
    assert_eq!(body, "user{alias}: \"devil2\"\n");
    assert!(body.contains("devil2"));
    let rows: Vec<String> = disk
        .store
        .index()
        .iter()
        .map(|s| format!("{}\t{}\tv{}\t{}", s.name, s.tier, s.version, s.offset))
        .collect();
    assert_eq!(rows, vec!["identity\t!fixed\tv1\t83".to_string()]);
}

const LOOSE: &str = "#h\nnotes between\n%%@a !fixed v:1\nA\n%%END\nfree text\n%%@b !durable v:2\nB\n%%END\ntail\n";
const LOOSE_INDEXED: &str = "#h\n%%INDEX\na:!fixed:v1:0000000085\nb:!durable:v2:0000000119\n%%END-INDEX\nnotes between\n%%@a !fixed v:1\nA\n%%END\nfree text\n%%@b !durable v:2\nB\n%%END\ntail\n";

fn loose_indexed() -> Disk {
    let mut disk = Disk::new(LOOSE);
    assert!(disk.store.index().is_empty());
    disk.bytes = disk.store.rebuild_index(LOOSE);
    disk.store.reload(&disk.bytes).unwrap();
    disk
}

#[test]
fn rebuild_adds_index_and_keeps_free_text() {
    let disk = loose_indexed();
    assert_eq!(disk.text(), LOOSE_INDEXED);
    disk.assert_byte_exact();
    assert_eq!(disk.read("a").unwrap(), "A\n");
    assert_eq!(disk.read("b").unwrap(), "B\n");
    assert_eq!(disk.version_of("b"), 2);
    let again = disk.store.rebuild_index(&disk.text());
    assert_eq!(again, disk.bytes, "rebuilding a rebuilt file changes nothing");
}

#[test]
fn writes_keep_free_text_and_other_sections() {
    let mut disk = loose_indexed();
    disk.write("a", "!volatile", "A2\n").unwrap();
    assert_eq!(
        disk.text(),
        "#h\n%%INDEX\na:!volatile:v2:0000000088\nb:!durable:v2:0000000126\n%%END-INDEX\nnotes between\n%%@a !volatile v:2\nA2\n%%END\nfree text\n%%@b !durable v:2\nB\n%%END\ntail\n"
    );
    assert_eq!(disk.read("b").unwrap(), "B\n");
    assert_eq!(disk.version_of("b"), 2);
    disk.write("z", "!durable", "Z\n").unwrap();
    assert_eq!(
        disk.text(),
        "#h\n%%INDEX\na:!volatile:v2:0000000113\nb:!durable:v2:0000000151\nz:!durable:v1:0000000183\n%%END-INDEX\nnotes between\n%%@a !volatile v:2\nA2\n%%END\nfree text\n%%@b !durable v:2\nB\n%%END\ntail\n\n%%@z !durable v:1\nZ\n%%END\n"
    );
    assert_eq!(disk.read("a").unwrap(), "A2\n");
    assert_eq!(disk.read("b").unwrap(), "B\n");
    assert_eq!(disk.read("z").unwrap(), "Z\n");
    disk.assert_byte_exact();
}

#[test]
fn rebuild_after_first_write_drops_the_blank_line() {
    let mut disk = Disk::new(HEADER);
    disk.write("note", "!volatile", "n\n").unwrap();
    let first = "#mctx v1.1 | updated:2026-08-08\n%%INDEX\nnote:!volatile:v1:0000000082\n%%END-INDEX\n\n%%@note !volatile v:1\nn\n%%END\n";
    assert_eq!(disk.text(), first);
    let rebuilt = disk.store.rebuild_index(first);
    let second = "#mctx v1.1 | updated:2026-08-08\n%%INDEX\nnote:!volatile:v1:0000000081\n%%END-INDEX\n%%@note !volatile v:1\nn\n%%END\n";
    assert_eq!(String::from_utf8(rebuilt.clone()).unwrap(), second);
    assert_eq!(disk.store.rebuild_index(second), rebuilt);
}

#[test]
fn read_looks_only_at_its_own_lines() {
    let disk = three_sections();
    let text = disk.text();
    let end = text.find("%%END\n").unwrap() + 6;
    let mut cut = text[..end].to_string();
    cut.push_str("anything at all");
    assert_eq!(disk.store.read("identity", cut.as_bytes()).unwrap(), IDENTITY);
}

#[test]
fn percent_name_and_mid_line_end_read_back() {
    let mut disk = Disk::new(HEADER);
    disk.write("50%", "!durable", "half\n").unwrap();
    assert_eq!(
        disk.text(),
        "#mctx v1.1 | updated:2026-08-08\n%%INDEX\n50%:!durable:v1:0000000080\n%%END-INDEX\n\n%%@50% !durable v:1\nhalf\n%%END\n"
    );
    assert_eq!(disk.read("50%").unwrap(), "half\n");
    disk.write("notes", "!volatile", "see %%END below\n").unwrap();
    assert_eq!(
        disk.text(),
        "#mctx v1.1 | updated:2026-08-08\n%%INDEX\n50%:!durable:v1:0000000109\nnotes:!volatile:v1:0000000141\n%%END-INDEX\n%%@50% !durable v:1\nhalf\n%%END\n\n%%@notes !volatile v:1\nsee %%END below\n%%END\n"
    );
    assert_eq!(disk.read("notes").unwrap(), "see %%END below\n");
    assert_eq!(disk.read("50%").unwrap(), "half\n");
    disk.assert_byte_exact();
}

#[test]
fn append_after_a_section_without_end_reads_back() {
    let text = "#h\n%%INDEX\na:!fixed:v1:0000000037\n%%END-INDEX\n%%@a !fixed v:1\nA lost its end\n";
    let mut disk = Disk::new(text);
    assert!(can_write(text, "b"));
    disk.write("b", "!durable", "B\n").unwrap();
    assert_eq!(
        disk.text(),
        "#h\n%%INDEX\na:!fixed:v1:0000000071\nb:!durable:v1:0000000103\n%%END-INDEX\n%%@a !fixed v:1\nA lost its end\n\n%%@b !durable v:1\nB\n%%END\n"
    );
    assert_eq!(disk.read("b").unwrap(), "B\n");
    assert_eq!(disk.version_of("b"), 1);
    disk.assert_byte_exact();
}

#[test]
fn checkpoint_is_a_volatile_write() {
    let mut a = three_sections();
    let mut b = three_sections();
    a.checkpoint("next: ship\n").unwrap();
    b.write("checkpoint", "!volatile", "next: ship\n").unwrap();
    assert_eq!(a.bytes, b.bytes);
    assert_eq!(a.store.index(), b.store.index());
    a.checkpoint("next: rest").unwrap();
    b.write("checkpoint", "!volatile", "next: rest").unwrap();
    assert_eq!(a.bytes, b.bytes);
    assert_eq!(a.version_of("checkpoint"), 2);
}

#[test]
fn index_block_length_is_twenty_plus_rows() {
    let disk = three_sections();
    let text = disk.text();
    let start = text.find("%%INDEX\n").unwrap();
    let end = text.find("%%END-INDEX\n").unwrap() + 12;
    let rows: usize = disk
        .store
        .index()
        .iter()
        .map(|s| s.name.len() + s.tier.len() + s.version.to_string().len() + 15)
        .sum();
    assert_eq!(end - start, 20 + rows);
    assert_eq!(end - start, 110);
}

#[test]
fn rewriting_a_body_with_mid_line_end_leaves_its_tail() {
    let mut disk = Disk::new("#h\n");
    disk.write("a", "!durable", "x %%END y\n").unwrap();
    assert_eq!(disk.read("a").unwrap(), "x %%END y\n");
    disk.write("a", "!durable", "z\n").unwrap();
    assert_eq!(
        disk.text(),
        "#h\n%%INDEX\na:!durable:v2:0000000048\n%%END-INDEX\n%%@a !durable v:2\nz\n%%END\n y\n%%END\n"
    );
    assert_eq!(disk.read("a").unwrap(), "z\n");
}

#[test]
fn name_holding_the_end_tag_leaves_old_text_on_update() {
    let mut disk = Disk::new("#h\n");
    disk.write("a%%END", "!durable", "x\n").unwrap();
    assert_eq!(disk.read("a%%END").unwrap(), "x\n");
    disk.write("a%%END", "!durable", "y\n").unwrap();
    assert_eq!(
        disk.text(),
        "#h\n%%INDEX\na%%END:!durable:v2:0000000053\n%%END-INDEX\n%%@a%%END !durable v:2\ny\n%%END\n !durable v:1\nx\n%%END\n"
    );
    assert_eq!(disk.read("a%%END").unwrap(), "y\n");
}
