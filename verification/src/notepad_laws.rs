//! What the notepad promises whatever the key: releases change nothing, `q` never quits over
//! unsaved edits, and only saves and section creation touch the file.
use vstd::prelude::*;
use crate::block_facts::crlf_free;
use crate::buffer::{body_lines, body_of, joined};
use crate::buffer_laws::{law_lines_roundtrip, lemma_split_trailing, no_newline};
use crate::canonical::{
    block_entries, blocks_ok, body_ok, cleared, file_of, header_ok, lemma_block_entries,
    stored_body, Block,
};
use crate::file_facts::{lemma_file_index, offset_limit};
use crate::layout::index_of;
use crate::notepad::{
    after_written, key_step, loaded, refreshed, rows_of, saved, started, written_outcome, KeyCode,
    KeyPress, Outcome, Screen, Written,
};
use crate::store::{after_write, first_named, is_tier};
use crate::store_laws::{law_read_after_write, lemma_tier_field_ok};
use crate::canonical::{no_end_line, row_name, token_ok};
use crate::readback_laws::{law_read_after_write_any, write_lands};
use crate::writer::write_defined;
use vstd::utf8::valid_utf8;
use crate::write_facts::{lemma_named_block_from, named_block_from, rewritten};
use crate::written_blocks::{lemma_rewritten, same_content, written_index};

verus! {

/// A key release changes nothing and asks nothing of the host.
pub proof fn law_release_changes_nothing(v: Screen, k: KeyPress)
    requires
        !k.pressed,
    ensures
        key_step(v, k).0 == v,
        key_step(v, k).1 == Outcome::Nothing,
{
}

/// `q` never quits while the editor holds unsaved changes.
pub proof fn law_q_keeps_unsaved_work(v: Screen, k: KeyPress)
    requires
        v.dirty,
        !v.quit,
        k.code == KeyCode::Char('q'),
    ensures
        !key_step(v, k).0.quit,
{
}

/// The file's bytes change only when the host is asked to store the new ones.
pub proof fn law_file_changes_only_when_persisted(v: Screen, k: KeyPress)
    ensures
        key_step(v, k).0.file != v.file ==> key_step(v, k).1 == Outcome::Persist(
            key_step(v, k).0.file,
        ),
{
}

/// The notepad's index is always the index of its file: so it is on opening, and every key
/// keeps it so.
pub proof fn law_index_follows_file(v: Screen, k: KeyPress)
    requires
        v.index == index_of(v.file).0,
    ensures
        key_step(v, k).0.index == index_of(key_step(v, k).0.file).0,
        started(v.file, index_of(v.file).0).index == index_of(v.file).0,
{
}

/// Lines without line breaks, stored and opened again, come back as they were.
proof fn lemma_stored_lines(ls: Seq<Seq<u8>>)
    requires
        ls.len() > 0,
        forall|i: int| 0 <= i < ls.len() ==> no_newline(#[trigger] ls[i]),
    ensures
        body_lines(stored_body(body_of(ls))) == ls,
{
    law_lines_roundtrip(ls);
    if joined(ls).len() == 0 {
        let e = Seq::<u8>::empty();
        lemma_split_trailing(e);
        assert(e + seq![10u8] =~= seq![10u8]);
        assert(crate::bytes::find_from(e, seq![10u8], 0) is None);
        assert(e.subrange(0, 0) =~= e);
        assert(crate::buffer::split_from(e, 0) =~= seq![e]);
        assert(body_lines(seq![10u8]) =~= seq![Seq::<u8>::empty()]);

    }
}

/// What Ctrl+S saves is what opening the section shows again: on a file the store wrote, saving
/// the editor's lines stores the new file, clears the unsaved mark, and loading the selected
/// entry afterwards gives back the same lines.
#[verifier::rlimit(30)]
pub proof fn law_saved_text_loads_back(v: Screen, h: Seq<u8>, bs: Seq<Block>)
    requires
        header_ok(h),
        blocks_ok(bs),
        v.file == file_of(h, bs),
        file_of(h, bs).len() < offset_limit(),
        v.index == index_of(v.file).0,
        v.rows == rows_of(v.index),
        0 <= v.selected < v.rows.len(),
        is_tier(v.rows[v.selected].tier),
        named_block_from(bs, v.rows[v.selected].name, 0) matches Some(i) ==> bs[i].version
            < u32::MAX,
        v.buffer.lines.len() > 0,
        forall|i: int| 0 <= i < v.buffer.lines.len() ==> no_newline(#[trigger] v.buffer.lines[i]),
        body_ok(body_of(v.buffer.lines)),
        crlf_free(stored_body(body_of(v.buffer.lines))),
        after_write(
            v.file,
            v.rows[v.selected].name,
            v.rows[v.selected].tier,
            body_of(v.buffer.lines),
        ).len() < offset_limit(),
    ensures
        saved(v).1 == Outcome::Persist(saved(v).0.file),
        !saved(v).0.dirty,
        saved(v).0.selected == v.selected,
        loaded(saved(v).0, v.selected).buffer.lines == v.buffer.lines,
{
    let name = v.rows[v.selected].name;
    let tier = v.rows[v.selected].tier;
    let body = body_of(v.buffer.lines);
    let sel = v.selected;
    lemma_file_index(h, bs);
    lemma_block_entries(bs, 0);
    crate::text_facts::lemma_file_text(h, bs);
    lemma_tier_field_ok(tier);
    assert(name == bs[sel].name) by {
        assert(v.rows[sel].name == index_of(v.file).0[sel].name);
    }
    lemma_named_block_from(bs, name, 0);
    law_read_after_write(h, bs, name, tier, body);
    let new = after_write(v.file, name, tier, body);
    assert(written_outcome(v.file, name, tier, body) == Written::Stored(new));
    let bs2 = cleared(rewritten(bs, name, tier, body));
    lemma_rewritten(bs, name, tier, body);
    crate::store_laws::lemma_after_write(h, bs, name, tier, body);
    assert(new == file_of(h, bs2));
    assert(bs2.len() == bs.len());
    lemma_file_index(h, bs2);
    lemma_block_entries(bs2, 0);
    let r = refreshed(after_written(v, Written::Stored(new)));
    assert(r.rows.len() == bs.len());
    assert(r.selected == sel);
    assert(r.rows[sel].name == name) by {
        assert(r.rows[sel].name == index_of(new).0[sel].name);
        let k = written_index(bs, name);
        if sel != k {
            assert(same_content(bs2[sel], bs[sel]));
        }
    }
    lemma_stored_lines(v.buffer.lines);
}

/// What Ctrl+S saves is what opening the section shows again, on any file the save is defined
/// on: when the write reads back (the conditions of the store's read-after-write law) and the
/// saved section is still listed at the selected place afterwards, saving stores the new file,
/// clears the unsaved mark, and loading the selected entry gives back the same lines.
#[verifier::rlimit(40)]
pub proof fn law_saved_text_loads_back_any(v: Screen)
    requires
        valid_utf8(v.file),
        v.index == index_of(v.file).0,
        v.rows == rows_of(v.index),
        0 <= v.selected < v.rows.len(),
        is_tier(v.rows[v.selected].tier),
        write_defined(v.file, v.rows[v.selected].name),
        token_ok(v.rows[v.selected].name),
        row_name(v.rows[v.selected].name),
        v.buffer.lines.len() > 0,
        forall|i: int| 0 <= i < v.buffer.lines.len() ==> no_newline(#[trigger] v.buffer.lines[i]),
        valid_utf8(body_of(v.buffer.lines)),
        no_end_line(stored_body(body_of(v.buffer.lines))),
        crlf_free(stored_body(body_of(v.buffer.lines))),
        write_lands(
            v.file,
            v.rows[v.selected].name,
            v.rows[v.selected].tier,
            body_of(v.buffer.lines),
        ),
        ({
            let new = after_write(
                v.file,
                v.rows[v.selected].name,
                v.rows[v.selected].tier,
                body_of(v.buffer.lines),
            );
            &&& new.len() < offset_limit()
            &&& v.selected < index_of(new).0.len()
            &&& index_of(new).0[v.selected].name == v.rows[v.selected].name
        }),
    ensures
        saved(v).1 == Outcome::Persist(saved(v).0.file),
        !saved(v).0.dirty,
        saved(v).0.selected == v.selected,
        loaded(saved(v).0, v.selected).buffer.lines == v.buffer.lines,
{
    let name = v.rows[v.selected].name;
    let tier = v.rows[v.selected].tier;
    let body = body_of(v.buffer.lines);
    let sel = v.selected;
    law_read_after_write_any(v.file, name, tier, body);
    let new = after_write(v.file, name, tier, body);
    assert(written_outcome(v.file, name, tier, body) == Written::Stored(new));
    let r = refreshed(after_written(v, Written::Stored(new)));
    assert(r.rows == rows_of(index_of(new).0));
    assert(r.selected == sel);
    assert(r.rows[sel].name == name);
    lemma_stored_lines(v.buffer.lines);
}

} // verus!
