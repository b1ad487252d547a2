//! Polaris: a document editor core with typed, invertible edits; Word files read and written through
//! neutral blocks; an editing session with undo, review of AI proposals, and file history.
use vstd::prelude::*;

pub mod ai;
pub mod commit;
pub mod commit_laws;
pub mod describe;
pub mod diff;
pub mod doc;
pub mod docx;
pub mod history;
pub mod json;
pub mod laws;
pub mod model_calls;
pub mod office;
pub mod offsets;
pub mod op_laws;
pub mod ops;
pub mod outline;
pub mod page_laws;
pub mod patchset;
pub mod prose;
pub mod render;
pub mod reply_laws;
pub mod review;
pub mod saving;
pub mod session;
pub mod session_calls;
pub mod session_laws;
pub mod text;
pub mod text_calls;
pub mod text_laws;
pub mod textmap;
pub mod tool_calls;
pub mod tree;
pub mod word_laws;

pub use ai::{AiChange, AiProposal, AiReply, AiRequest};
pub use commit::{assemble, commit, undo, AssembleError, CommitError, DocumentModel, PatchError};
pub use diff::{char_diff, DiffPart};
pub use docx::{
    import_blocks, import_docx, DocxBackend, DocxBlock, FakeBackend, OfficeCliBackend,
};
pub use office::DocxOp;
pub use offsets::{CharIndex, CharRange, Pos};
pub use ops::{NodeId, NodeKind, NodeSnapshot, Op, Patch, PatchId, PatchSource, Target};
pub use outline::{document_blocks, ViewBlock};
pub use patchset::{PatchSet, TopoError};
pub use prose::ProseModel;
pub use render::{
    apply_fragment_edit, render_html, EditError, Rendered, SourceMap, SourceSpan,
};
pub use session::{sample_model, PolarisApp};

verus! {

} // verus!
