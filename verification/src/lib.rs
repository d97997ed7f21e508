//! Reading, writing and indexing `.mctx` memory-context files.
use vstd::prelude::*;

pub mod bytes;
pub mod numbers;
pub mod unicode;
pub mod layout;
pub mod writer;
pub mod store;
pub mod buffer;
pub mod buffer_laws;
pub mod edit_laws;
pub mod seq_facts;
pub mod canonical;
pub mod index_facts;
pub mod block_facts;
pub mod write_facts;
pub mod file_facts;
pub mod written_blocks;
pub mod store_laws;
pub mod rebuild_laws;
pub mod read_laws;
pub mod scan_facts;
pub mod write_laws;
pub mod readback_laws;
pub mod frame_facts;
pub mod padding;
pub mod notepad;
pub mod text_facts;
pub mod notepad_laws;
pub mod key_laws;
pub mod date;

verus! {

} // verus!
