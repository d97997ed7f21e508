//! A handle on one `.mctx` file: its loaded index, and the reads and writes that keep that index
//! and the file's byte offsets consistent. The handle holds the file's path and index; the file's
//! bytes are handed in by the caller, and new bytes to store are handed back.
use vstd::prelude::*;
use vstd::utf8::encode_utf8;
use crate::bytes::{copy_range, eq_bytes};
use crate::layout::{
    durable_tag, index_of, read_at, read_at_exec, scan_index, section_views, ReadOutcome,
    Section, SectionView,
};
use crate::writer::{apply_write, rebuild, rebuilt, write_defined, write_is_defined, written};
use crate::text_facts::lemma_write_reads_back;
use crate::unicode::lemma_str_valid;

verus! {

/// Why a store operation failed.
#[derive(Debug, Clone, Copy, PartialEq, Eq, Structural)]
pub enum MctxError {
    /// The index lists no section by that name.
    NotFound,
    /// The tier is none of `!fixed`, `!durable`, `!volatile`.
    InvalidTier,
    /// The offset stored for the section does not point at its own `%%@<name>` marker line.
    BadOffset(u64),
    /// A line that had to be read is not valid UTF-8.
    InvalidUtf8,
}

/// `!fixed`: identity-level, never overwritten automatically.
pub open spec fn fixed_tag() -> Seq<u8> {
    seq![33u8, 102u8, 105u8, 120u8, 101u8, 100u8]
}

/// `!volatile`: session-level, safe to drop.
pub open spec fn volatile_tag() -> Seq<u8> {
    seq![33u8, 118u8, 111u8, 108u8, 97u8, 116u8, 105u8, 108u8, 101u8]
}

/// `checkpoint`, the section that `Store::checkpoint` writes.
pub open spec fn checkpoint_name() -> Seq<u8> {
    seq![99u8, 104u8, 101u8, 99u8, 107u8, 112u8, 111u8, 105u8, 110u8, 116u8]
}

/// One of the three tier tags; there is no fourth.
pub open spec fn is_tier(t: Seq<u8>) -> bool {
    t == fixed_tag() || t == durable_tag() || t == volatile_tag()
}

/// Whether `tier` is one of the three tier tags.
pub fn is_valid_tier(tier: &str) -> (r: bool)
    ensures
        r == is_tier(encode_utf8(tier@)),
{
    let fixed: [u8; 6] = [33, 102, 105, 120, 101, 100];
    let durable: [u8; 8] = [33, 100, 117, 114, 97, 98, 108, 101];
    let volatile: [u8; 9] = [33, 118, 111, 108, 97, 116, 105, 108, 101];
    assert(fixed@ =~= fixed_tag());
    assert(durable@ =~= durable_tag());
    assert(volatile@ =~= volatile_tag());
    let t = tier.as_bytes();
    eq_bytes(t, fixed.as_slice()) || eq_bytes(t, durable.as_slice()) || eq_bytes(
        t,
        volatile.as_slice(),
    )
}

/// The first row from `i` on whose name is `name`.
pub open spec fn named_from(idx: Seq<SectionView>, name: Seq<u8>, i: int) -> Option<int>
    decreases idx.len() - i,
{
    if i < 0 || i >= idx.len() {
        None
    } else if idx[i].name == name {
        Some(i)
    } else {
        named_from(idx, name, i + 1)
    }
}

pub proof fn lemma_named_from(idx: Seq<SectionView>, name: Seq<u8>, i: int)
    requires
        0 <= i,
    ensures
        named_from(idx, name, i) matches Some(k) ==> i <= k < idx.len() && idx[k].name == name
            && forall|j: int| i <= j < k ==> idx[j].name != name,
        named_from(idx, name, i) is None ==> forall|j: int| i <= j < idx.len() ==> idx[j].name
            != name,
    decreases idx.len() - i,
{
    if i < idx.len() && idx[i].name != name {
        lemma_named_from(idx, name, i + 1);
    }
}

/// The first row of the index whose name is `name`.
pub open spec fn first_named(idx: Seq<SectionView>, name: Seq<u8>) -> Option<int> {
    named_from(idx, name, 0)
}

/// The file's bytes after `Store::write(name, tier, body)`: the section written, then the index
/// regenerated.
pub open spec fn after_write(c: Seq<u8>, name: Seq<u8>, tier: Seq<u8>, body: Seq<u8>) -> Seq<u8> {
    rebuilt(written(c, name, tier, body))
}

/// Whether `Store::write` is defined for `name` on a file holding `content`: a section found by
/// its marker must be closed by `%%END` and have a version below `u32::MAX`.
pub fn can_write(content: &str, name: &str) -> (r: bool)
    ensures
        r == write_defined(encode_utf8(content@), encode_utf8(name@)),
{
    write_is_defined(content.as_bytes(), name.as_bytes())
}

/// A handle to one `.mctx` file. It holds the file's path and its loaded index, never section
/// bodies.
pub struct Store {
    path: String,
    index: Vec<Section>,
}

impl View for Store {
    type V = Seq<SectionView>;

    closed spec fn view(&self) -> Seq<SectionView> {
        section_views(self.index@)
    }
}

impl Store {
    /// The path this store was opened with.
    pub closed spec fn path_view(&self) -> Seq<char> {
        self.path@
    }

    /// Opens the store of the file at `path` whose bytes are `content`, loading its index.
    pub fn open(path: &str, content: &[u8]) -> (r: Result<Store, MctxError>)
        ensures
            match r {
                Ok(s) => index_of(content@).1 && s@ == index_of(content@).0 && s.path_view()
                    == path@,
                Err(e) => !index_of(content@).1 && e == MctxError::InvalidUtf8,
            },
    {
        let mut store = Store { path: path.to_owned(), index: Vec::new() };
        match store.reload(content) {
            Ok(()) => Ok(store),
            Err(e) => Err(e),
        }
    }

    /// The path this store was opened with.
    pub fn path(&self) -> (r: &str)
        ensures
            r@ == self.path_view(),
    {
        self.path.as_str()
    }

    /// The loaded index: section name, tier, version and byte offset.
    pub fn index(&self) -> (r: &[Section])
        ensures
            section_views(r@) == self@,
    {
        self.index.as_slice()
    }

    /// Reloads the index from the file's bytes. Lines are read up to the one starting
    /// `%%END-INDEX`; section bodies are never looked at. When a line read is not valid UTF-8 the
    /// index keeps the rows found before it and the result is an error.
    pub fn reload(&mut self, content: &[u8]) -> (r: Result<(), MctxError>)
        ensures
            final(self)@ == index_of(content@).0,
            final(self).path_view() == old(self).path_view(),
            r is Ok <==> index_of(content@).1,
            r matches Err(e) ==> e == MctxError::InvalidUtf8,
    {
        let (rows, ok) = scan_index(content);
        self.index = rows;
        if ok {
            Ok(())
        } else {
            Err(MctxError::InvalidUtf8)
        }
    }

    /// The position in the index of the first section named `name`.
    pub fn locate(&self, name: &str) -> (r: Option<usize>)
        ensures
            match r {
                Some(i) => first_named(self@, encode_utf8(name@)) == Some(i as int),
                None => first_named(self@, encode_utf8(name@)) is None,
            },
    {
        let target = name.as_bytes();
        let mut i: usize = 0;
        while i < self.index.len()
            invariant
                i <= self.index@.len(),
                target@ == encode_utf8(name@),
                first_named(self@, target@) == named_from(self@, target@, i as int),
            decreases self.index@.len() - i,
        {
            if eq_bytes(self.index[i].name.as_str().as_bytes(), target) {
                return Some(i);
            }
            i = i + 1;
        }
        None
    }

    /// Reads the body of section `name` from the file's bytes: the index gives its offset, and
    /// the lines after the marker line there are read up to the first one starting `%%END`,
    /// each with a `'\n'` after it.
    pub fn read(&self, name: &str, content: &[u8]) -> (r: Result<String, MctxError>)
        ensures
            match first_named(self@, encode_utf8(name@)) {
                None => r == Err::<String, MctxError>(MctxError::NotFound),
                Some(i) => match read_at(content@, self@[i].offset as nat, encode_utf8(name@)) {
                    ReadOutcome::Body(b) => r is Ok && encode_utf8(r->Ok_0@) == b,
                    ReadOutcome::BadMarker => r == Err::<String, MctxError>(
                        MctxError::BadOffset(self@[i].offset),
                    ),
                    ReadOutcome::BadUtf8 => r == Err::<String, MctxError>(MctxError::InvalidUtf8),
                },
            },
    {
        let i = match self.locate(name) {
            None => return Err(MctxError::NotFound),
            Some(i) => i,
        };
        proof {
            lemma_named_from(self@, encode_utf8(name@), 0);
            assert(self@[i as int] == self.index@[i as int]@);
        }
        let offset = self.index[i].offset;
        match read_at_exec(content, offset, name.as_bytes()) {
            Ok(s) => Ok(s),
            Err(true) => Err(MctxError::BadOffset(offset)),
            Err(false) => Err(MctxError::InvalidUtf8),
        }
    }

    /// Writes `body` to section `name`: the block of the first marker line of `name` (a line
    /// starting `%%@<name>` and then whitespace or the line's end) is replaced by one with its
    /// version one higher, or a new block at version 1 is appended; then the index block is
    /// regenerated and reloaded. Gives back the bytes the file must now hold. A tier other than
    /// the three tags is refused before anything else.
    pub fn write(&mut self, content: &str, name: &str, tier: &str, body: &str) -> (r: Result<
        Vec<u8>,
        MctxError,
    >)
        requires
            is_tier(encode_utf8(tier@)) ==> write_defined(encode_utf8(content@), encode_utf8(name@)),
        ensures
            final(self).path_view() == old(self).path_view(),
            !is_tier(encode_utf8(tier@)) ==> r == Err::<Vec<u8>, MctxError>(
                MctxError::InvalidTier,
            ) && final(self)@ == old(self)@,
            is_tier(encode_utf8(tier@)) ==> ({
                let new = after_write(
                    encode_utf8(content@),
                    encode_utf8(name@),
                    encode_utf8(tier@),
                    encode_utf8(body@),
                );
                &&& final(self)@ == index_of(new).0
                &&& r matches Ok(v) && v@ == new
            }),
    {
        if !is_valid_tier(tier) {
            return Err(MctxError::InvalidTier);
        }
        proof {
            lemma_str_valid(content@);
            lemma_str_valid(name@);
            lemma_str_valid(tier@);
            lemma_str_valid(body@);
            lemma_write_reads_back(
                encode_utf8(content@),
                encode_utf8(name@),
                encode_utf8(tier@),
                encode_utf8(body@),
            );
        }
        let raw = apply_write(content.as_bytes(), name.as_bytes(), tier.as_bytes(), body.as_bytes());
        let new = rebuild(raw.as_slice());
        match self.reload(new.as_slice()) {
            Ok(()) => Ok(new),
            Err(e) => Err(e),
        }
    }

    /// Writes `body` to the `!volatile` section `checkpoint`, replacing the previous one.
    pub fn checkpoint(&mut self, content: &str, body: &str) -> (r: Result<Vec<u8>, MctxError>)
        requires
            write_defined(encode_utf8(content@), checkpoint_name()),
        ensures
            final(self).path_view() == old(self).path_view(),
            ({
                let new = after_write(
                    encode_utf8(content@),
                    checkpoint_name(),
                    volatile_tag(),
                    encode_utf8(body@),
                );
                &&& final(self)@ == index_of(new).0
                &&& r matches Ok(v) && v@ == new
            }),
    {
        let name = "checkpoint";
        let tier = "!volatile";
        proof {
            reveal_strlit("checkpoint");
            reveal_strlit("!volatile");
            vstd::string::is_ascii_spec_bytes(name);
            vstd::string::is_ascii_spec_bytes(tier);
            assert(vstd::string::is_ascii(name));
            assert(vstd::string::is_ascii(tier));
            assert(encode_utf8(name@) =~= checkpoint_name());
            assert(encode_utf8(tier@) =~= volatile_tag());
        }
        self.write(content, name, tier, body)
    }

    /// The file's bytes with the index block regenerated from the `%%@` marker lines after it,
    /// with fresh fixed-width byte offsets. The loaded index is not changed.
    pub fn rebuild_index(&self, content: &str) -> (r: Vec<u8>)
        ensures
            r@ == rebuilt(encode_utf8(content@)),
    {
        rebuild(content.as_bytes())
    }
}

} // verus!
