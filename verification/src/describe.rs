//! Errors as text for messages, in the form in which `{:?}` writes them.
use crate::commit::{CommitError, CommitErrorView, PatchError, PatchErrorView};
use crate::offsets::CharRange;
use crate::patchset::{TopoError, TopoErrorView};
use crate::text;
use crate::text::{count_text, quote};
use vstd::prelude::*;
use vstd::string::*;

verus! {

/// `NodeId("..")`
pub open spec fn node_shown(id: Seq<char>) -> Seq<char> {
    "NodeId("@ + text::quoted(id) + ")"@
}

/// `PatchId("..")`
pub open spec fn patch_shown(id: Seq<char>) -> Seq<char> {
    "PatchId("@ + text::quoted(id) + ")"@
}

/// `CharRange { start: Pos(..), end: Pos(..) }`
pub open spec fn range_shown(range: CharRange) -> Seq<char> {
    "CharRange { start: Pos("@ + text::decimal(range.start.0 as nat) + "), end: Pos("@
        + text::decimal(range.end.0 as nat) + ") }"@
}

/// A list of patch ids in square brackets.
pub open spec fn ids_shown(ids: Seq<Seq<char>>) -> Seq<char> {
    "["@ + text::joined(ids.map_values(|id: Seq<char>| patch_shown(id)), ", "@) + "]"@
}

pub open spec fn patch_error_shown(e: PatchErrorView) -> Seq<char> {
    match e {
        PatchErrorView::UnknownTarget(id) => "UnknownTarget("@ + node_shown(id) + ")"@,
        PatchErrorView::RangeOutOfBounds(range) => "RangeOutOfBounds("@ + range_shown(range) + ")"@,
        PatchErrorView::DuplicateNode(id) => "DuplicateNode("@ + node_shown(id) + ")"@,
        PatchErrorView::IndexOutOfBounds { parent, index, len } => "IndexOutOfBounds { parent: "@
            + node_shown(parent) + ", index: "@ + text::decimal(index as nat) + ", len: "@
            + text::decimal(len) + " }"@,
        PatchErrorView::NotRemovable(id) => "NotRemovable("@ + node_shown(id) + ")"@,
    }
}

pub open spec fn topo_error_shown(e: TopoErrorView) -> Seq<char> {
    match e {
        TopoErrorView::DanglingDependency { patch, missing } => "DanglingDependency { patch: "@
            + patch_shown(patch) + ", missing: "@ + patch_shown(missing) + " }"@,
        TopoErrorView::DuplicateId(id) => "DuplicateId("@ + patch_shown(id) + ")"@,
        TopoErrorView::Cycle(ids) => "Cycle("@ + ids_shown(ids) + ")"@,
    }
}

pub open spec fn commit_error_shown(e: CommitErrorView) -> Seq<char> {
    match e {
        CommitErrorView::Topo(t) => "Topo("@ + topo_error_shown(t) + ")"@,
        CommitErrorView::Aborted { patch, cause } => "Aborted { patch: "@ + patch_shown(patch)
            + ", cause: "@ + patch_error_shown(cause) + " }"@,
        CommitErrorView::UnreviewedAi(id) => "UnreviewedAi("@ + patch_shown(id) + ")"@,
    }
}

fn show_node(id: &str) -> (out: String)
    ensures
        out@ == node_shown(id@),
{
    wrap("NodeId(", quote(id).as_str(), ")")
}

fn show_patch(id: &str) -> (out: String)
    ensures
        out@ == patch_shown(id@),
{
    wrap("PatchId(", quote(id).as_str(), ")")
}

/// Three texts, one after the other.
fn wrap(a: &str, b: &str, c: &str) -> (out: String)
    ensures
        out@ == a@ + b@ + c@,
{
    let mut out = a.to_string();
    out.append(b);
    out.append(c);
    out
}

fn show_range(range: &CharRange) -> (out: String)
    ensures
        out@ == range_shown(*range),
{
    let mut out = wrap("CharRange { start: Pos(", count_text(range.start.0).as_str(), "), end: Pos(");
    out.append(count_text(range.end.0).as_str());
    out.append(") }");
    out
}

impl PatchError {
    /// The error as `{:?}` writes it.
    pub fn shown(&self) -> (out: String)
        ensures
            out@ == patch_error_shown(self@),
    {
        match self {
            PatchError::UnknownTarget(id) => wrap(
                "UnknownTarget(",
                show_node(id.0.as_str()).as_str(),
                ")",
            ),
            PatchError::RangeOutOfBounds(range) => wrap(
                "RangeOutOfBounds(",
                show_range(range).as_str(),
                ")",
            ),
            PatchError::DuplicateNode(id) => wrap(
                "DuplicateNode(",
                show_node(id.0.as_str()).as_str(),
                ")",
            ),
            PatchError::IndexOutOfBounds { parent, index, len } => {
                let mut out = wrap(
                    "IndexOutOfBounds { parent: ",
                    show_node(parent.0.as_str()).as_str(),
                    ", index: ",
                );
                out.append(count_text(*index).as_str());
                out.append(", len: ");
                out.append(count_text(*len).as_str());
                out.append(" }");
                out
            },
            PatchError::NotRemovable(id) => wrap(
                "NotRemovable(",
                show_node(id.0.as_str()).as_str(),
                ")",
            ),
        }
    }
}

impl TopoError {
    /// The error as `{:?}` writes it.
    pub fn shown(&self) -> (out: String)
        ensures
            out@ == topo_error_shown(self@),
    {
        match self {
            TopoError::DanglingDependency { patch, missing } => {
                let mut out = wrap(
                    "DanglingDependency { patch: ",
                    show_patch(patch.0.as_str()).as_str(),
                    ", missing: ",
                );
                out.append(show_patch(missing.0.as_str()).as_str());
                out.append(" }");
                out
            },
            TopoError::DuplicateId(id) => wrap(
                "DuplicateId(",
                show_patch(id.0.as_str()).as_str(),
                ")",
            ),
            TopoError::Cycle(ids) => {
                let mut shown: Vec<String> = Vec::new();
                let mut i: usize = 0;
                while i < ids.len()
                    invariant
                        i <= ids@.len(),
                        shown@.len() == i,
                        forall|j: int|
                            0 <= j < i ==> (#[trigger] shown@[j])@ == patch_shown(ids@[j]@),
                    decreases ids@.len() - i,
                {
                    shown.push(show_patch(ids[i].0.as_str()));
                    i += 1;
                }
                proof {
                    assert(shown@.map_values(|p: String| p@) =~= crate::ops::seen(ids@).map_values(
                        |id: Seq<char>| patch_shown(id),
                    ));
                }
                let list = wrap("[", text::join(&shown, ", ").as_str(), "]");
                wrap("Cycle(", list.as_str(), ")")
            },
        }
    }
}

impl CommitError {
    /// The error as `{:?}` writes it.
    pub fn shown(&self) -> (out: String)
        ensures
            out@ == commit_error_shown(self@),
    {
        match self {
            CommitError::Topo(e) => wrap("Topo(", e.shown().as_str(), ")"),
            CommitError::Aborted { patch, cause } => {
                let mut out = wrap(
                    "Aborted { patch: ",
                    show_patch(patch.0.as_str()).as_str(),
                    ", cause: ",
                );
                out.append(cause.shown().as_str());
                out.append(" }");
                out
            },
            CommitError::UnreviewedAi(id) => wrap(
                "UnreviewedAi(",
                show_patch(id.0.as_str()).as_str(),
                ")",
            ),
        }
    }
}

} // verus!
