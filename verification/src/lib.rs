//! Soundbanks as rows of a database: taken apart, put together, searched and edited.
//!
//! A bank is a list of sections. One of them holds the objects of the routing graph; two more hold
//! audio files and their index. `bank`, `body` and `json` model that data; `rows`, `storage` and
//! `session` turn it into rows and back; `editor` and `viewer` edit it. Contracts speak of what the
//! data says: the view of a `Soundbank` is a sequence of `bank::SectionData`. The modules named
//! `..._laws` say what the operations mean for that data, beyond what a single contract says.
use vstd::prelude::*;

pub mod audio_laws;
pub mod bank;
pub mod bank_laws;
pub mod bench;
pub mod body;
pub mod body_laws;
pub mod compare;
pub mod copy_laws;
pub mod default_laws;
pub mod edit_laws;
pub mod editor;
pub mod edits;
pub mod error;
pub mod field_laws;
pub mod graph;
pub mod graph_laws;
pub mod ids;
pub mod import_laws;
pub mod index;
pub mod json;
pub mod json_text;
pub mod kind;
pub mod line_laws;
pub mod name_laws;
pub mod page_laws;
pub mod pages;
pub mod patch;
pub mod patch_laws;
pub mod renumber;
pub mod result_laws;
pub mod row_laws;
pub mod rows;
pub mod seqs;
pub mod session;
pub mod session_laws;
pub mod storage;
pub mod sound_laws;
pub mod stored_laws;
pub mod subgraph_laws;
pub mod text;
pub mod tree_laws;
pub mod viewer;
pub mod wems;

verus! {

} // verus!
