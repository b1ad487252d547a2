//! The document interface, and transactions over it: assemble, commit, undo.
use crate::offsets::CharRange;
use crate::ops;
use crate::ops::{NodeId, Op, OpView, Patch, PatchId, PatchSource, PatchView, SourceView, Target};
use crate::patchset;
use crate::patchset::{PatchSet, TopoError, TopoErrorView};
use vstd::prelude::*;
use vstd::string::*;

verus! {

/// Why an op could not be applied.
#[derive(Debug, PartialEq)]
pub enum PatchError {
    UnknownTarget(NodeId),
    /// The range of a `SetSpan` is not inside the text (or `start > end`).
    RangeOutOfBounds(CharRange),
    /// The id of a node to insert is taken.
    DuplicateNode(NodeId),
    /// A child index past the end of the parent's children (the end itself is fine).
    IndexOutOfBounds { parent: NodeId, index: usize, len: usize },
    /// The node has no parent.
    NotRemovable(NodeId),
}

/// What a `PatchError` holds.
#[verifier::ext_equal]
pub enum PatchErrorView {
    UnknownTarget(Seq<char>),
    RangeOutOfBounds(CharRange),
    DuplicateNode(Seq<char>),
    IndexOutOfBounds { parent: Seq<char>, index: usize, len: nat },
    NotRemovable(Seq<char>),
}

impl View for PatchError {
    type V = PatchErrorView;

    open spec fn view(&self) -> PatchErrorView {
        match *self {
            PatchError::UnknownTarget(id) => PatchErrorView::UnknownTarget(id@),
            PatchError::RangeOutOfBounds(range) => PatchErrorView::RangeOutOfBounds(range),
            PatchError::DuplicateNode(id) => PatchErrorView::DuplicateNode(id@),
            PatchError::IndexOutOfBounds { parent, index, len } => PatchErrorView::IndexOutOfBounds {
                parent: parent@,
                index,
                len: len as nat,
            },
            PatchError::NotRemovable(id) => PatchErrorView::NotRemovable(id@),
        }
    }
}

/// A document that ops can be applied to. Its view is its state; what an op does is a function
/// of the state.
pub trait DocumentModel: View + Sized {
    /// On these inputs `apply_op` comes back (with a result or an error).
    spec fn ready(state: Self::V, target: Seq<char>, op: OpView) -> bool;

    /// What applying an op gives: the next state and the inverse op, or the error.
    spec fn outcome(state: Self::V, target: Seq<char>, op: OpView) -> Result<
        (Self::V, OpView),
        PatchErrorView,
    >;

    /// On these inputs `derive` comes back.
    spec fn derivable(state: Self::V, authored: Seq<PatchView>) -> bool;

    /// The patches that follow from the authored ones in this state.
    spec fn derived(state: Self::V, authored: Seq<PatchView>) -> Seq<PatchView>;

    /// The text of a node.
    spec fn text_in(state: Self::V, id: Seq<char>) -> Option<Seq<char>>;

    /// The name of the document type.
    fn root_kind(&self) -> &'static str;

    fn get_text(&self, id: &NodeId) -> (r: Option<&str>)
        ensures
            match r {
                Some(t) => Self::text_in(self@, id@) == Some(t@),
                None => Self::text_in(self@, id@) is None,
            },
    ;

    /// Applies one op and returns its inverse. An op that fails leaves the document as it was.
    fn apply_op(&mut self, target: &Target, op: &Op) -> (r: Result<Op, PatchError>)
        requires
            Self::ready(old(self)@, target@, op@),
        ensures
            match r {
                Ok(inverse) => Self::outcome(old(self)@, target@, op@) == Ok::<
                    (Self::V, OpView),
                    PatchErrorView,
                >((final(self)@, inverse@)),
                Err(e) => {
                    &&& Self::outcome(old(self)@, target@, op@) == Err::<
                        (Self::V, OpView),
                        PatchErrorView,
                    >(e@)
                    &&& final(self)@ == old(self)@
                },
            },
    ;

    /// Reads the document, in which the authored patches are already applied, and returns the
    /// patches that follow from them. The authored patches only serve to link dependencies.
    fn derive(&self, authored: &[Patch]) -> (r: Vec<Patch>)
        requires
            Self::derivable(self@, ops::seen(authored@)),
        ensures
            ops::seen(r@) == Self::derived(self@, ops::seen(authored@)),
    ;
}

// ---------------------------------------------------------------- runs, as mathematics

/// The result of applying a sequence of patches as one transaction.
#[verifier::ext_equal]
pub enum Run<S> {
    /// All applied; the inverse patches are in the order of application.
    Done { state: S, inverses: Seq<PatchView> },
    /// One failed; `state` is what is left after rolling back.
    Failed { state: S, patch: Seq<char>, cause: PatchErrorView },
}

/// The patch that takes back `p`, whose inverse op is `op`.
pub open spec fn inverse_patch(p: PatchView, op: OpView) -> PatchView {
    PatchView {
        id: "inv:"@ + p.id,
        source: SourceView::Authored,
        target: p.target,
        op,
        depends_on: Seq::empty(),
    }
}

/// Applies inverse patches, the last one first; one that fails is skipped.
pub open spec fn rollback<M: DocumentModel>(state: M::V, inverses: Seq<PatchView>) -> M::V
    decreases inverses.len(),
{
    if inverses.len() == 0 {
        state
    } else {
        match M::outcome(state, inverses.last().target, inverses.last().op) {
            Ok((next, _)) => rollback::<M>(next, inverses.drop_last()),
            Err(_) => rollback::<M>(state, inverses.drop_last()),
        }
    }
}

/// Every step of the rollback comes back.
pub open spec fn rollback_ready<M: DocumentModel>(state: M::V, inverses: Seq<PatchView>) -> bool
    decreases inverses.len(),
{
    inverses.len() > 0 ==> {
        &&& M::ready(state, inverses.last().target, inverses.last().op)
        &&& match M::outcome(state, inverses.last().target, inverses.last().op) {
            Ok((next, _)) => rollback_ready::<M>(next, inverses.drop_last()),
            Err(_) => rollback_ready::<M>(state, inverses.drop_last()),
        }
    }
}

/// Applies `ps` from position `k` on; `inverses` take back what was applied before.
pub open spec fn run_from<M: DocumentModel>(
    state: M::V,
    ps: Seq<PatchView>,
    k: int,
    inverses: Seq<PatchView>,
) -> Run<M::V>
    decreases ps.len() - k,
{
    if k < 0 || k >= ps.len() {
        Run::Done { state, inverses }
    } else {
        match M::outcome(state, ps[k].target, ps[k].op) {
            Ok((next, op)) => run_from::<M>(next, ps, k + 1, inverses.push(inverse_patch(ps[k], op))),
            Err(cause) => Run::Failed { state: rollback::<M>(state, inverses), patch: ps[k].id, cause },
        }
    }
}

/// Every step of `run_from` comes back, those of a rollback too.
pub open spec fn run_ready_from<M: DocumentModel>(
    state: M::V,
    ps: Seq<PatchView>,
    k: int,
    inverses: Seq<PatchView>,
) -> bool
    decreases ps.len() - k,
{
    0 <= k < ps.len() ==> {
        &&& M::ready(state, ps[k].target, ps[k].op)
        &&& match M::outcome(state, ps[k].target, ps[k].op) {
            Ok((next, op)) => run_ready_from::<M>(
                next,
                ps,
                k + 1,
                inverses.push(inverse_patch(ps[k], op)),
            ),
            Err(_) => rollback_ready::<M>(state, inverses),
        }
    }
}

/// Applies a sequence of patches, all or nothing.
pub open spec fn run<M: DocumentModel>(state: M::V, ps: Seq<PatchView>) -> Run<M::V> {
    run_from::<M>(state, ps, 0, Seq::empty())
}

/// Every step of `run` comes back.
pub open spec fn run_ready<M: DocumentModel>(state: M::V, ps: Seq<PatchView>) -> bool {
    run_ready_from::<M>(state, ps, 0, Seq::empty())
}

/// Applies `ps` from position `k` on without any rollback: the state reached, and the error
/// that stopped it, if any.
pub open spec fn feed_from<M: DocumentModel>(state: M::V, ps: Seq<PatchView>, k: int) -> (
    M::V,
    Option<PatchErrorView>,
)
    decreases ps.len() - k,
{
    if k < 0 || k >= ps.len() {
        (state, None)
    } else {
        match M::outcome(state, ps[k].target, ps[k].op) {
            Ok((next, _)) => feed_from::<M>(next, ps, k + 1),
            Err(cause) => (state, Some(cause)),
        }
    }
}

/// Every step of `feed_from`, and the derivation at its end, comes back.
pub open spec fn feed_ready_from<M: DocumentModel>(state: M::V, ps: Seq<PatchView>, k: int) -> bool
    decreases ps.len() - k,
{
    if k < 0 || k >= ps.len() {
        M::derivable(state, ps)
    } else {
        &&& M::ready(state, ps[k].target, ps[k].op)
        &&& match M::outcome(state, ps[k].target, ps[k].op) {
            Ok((next, _)) => feed_ready_from::<M>(next, ps, k + 1),
            Err(_) => true,
        }
    }
}

/// The patches of a set in the order in which they run.
pub open spec fn ordered(ps: Seq<PatchView>) -> Seq<PatchView> {
    patchset::permuted(ps, patchset::topo(ps)->Ok_0)
}

/// No patch of the set is an AI patch without review.
pub open spec fn all_reviewed(ps: Seq<PatchView>) -> bool {
    forall|i: int| 0 <= i < ps.len() ==> !(#[trigger] ps[i]).unreviewed()
}

/// What committing a set gives.
pub open spec fn commit_outcome<M: DocumentModel>(state: M::V, ps: Seq<PatchView>) -> (
    M::V,
    Result<Seq<PatchView>, CommitErrorView>,
) {
    if !all_reviewed(ps) {
        (
            state,
            Err(
                CommitErrorView::UnreviewedAi(
                    ps[choose|i: int| patchset::first_unreviewed(ps, i)].id,
                ),
            ),
        )
    } else {
        match patchset::topo(ps) {
            Err(e) => (state, Err(CommitErrorView::Topo(e))),
            Ok(_) => match run::<M>(state, ordered(ps)) {
                Run::Done { state: next, inverses } => (next, Ok(inverses.reverse())),
                Run::Failed { state: left, patch, cause } => (
                    left,
                    Err(CommitErrorView::Aborted { patch, cause }),
                ),
            },
        }
    }
}

/// Every step of committing a set comes back.
pub open spec fn commit_ready<M: DocumentModel>(state: M::V, ps: Seq<PatchView>) -> bool {
    all_reviewed(ps) && patchset::topo(ps) is Ok ==> run_ready::<M>(state, ordered(ps))
}

// ---------------------------------------------------------------- assemble

/// Why a set could not be assembled.
#[derive(Debug, PartialEq)]
pub enum AssembleError {
    Apply(PatchError),
    Topo(TopoError),
}

/// Applies the authored patches to the model, lets the model derive what follows from them, and
/// packs both in running order. There is no rollback: when an authored patch fails, the ones
/// before it stay applied.
pub fn assemble<M: DocumentModel>(model: &mut M, authored: Vec<Patch>) -> (r: Result<
    PatchSet,
    AssembleError,
>)
    requires
        feed_ready_from::<M>(old(model)@, ops::seen(authored@), 0),
    ensures
        ({
            let own = ops::seen(authored@);
            let (state, failed) = feed_from::<M>(old(model)@, own, 0);
            let all = own + M::derived(state, own);
            &&& final(model)@ == state
            &&& match r {
                Err(AssembleError::Apply(e)) => failed == Some(e@),
                Err(AssembleError::Topo(e)) => failed is None && patchset::topo(all) == Err::<
                    Seq<int>,
                    TopoErrorView,
                >(e@),
                Ok(set) => failed is None && patchset::topo(all) is Ok && set@ == ordered(all),
            }
        }),
{
    let ghost own = ops::seen(authored@);
    let mut i: usize = 0;
    while i < authored.len()
        invariant
            i <= authored@.len(),
            own == ops::seen(authored@),
            feed_ready_from::<M>(model@, own, i as int),
            feed_from::<M>(old(model)@, own, 0) == feed_from::<M>(model@, own, i as int),
        decreases authored@.len() - i,
    {
        let p = &authored[i];
        proof {
            assert(own[i as int] == p@);
        }
        match model.apply_op(&p.target, &p.op) {
            Ok(_) => {},
            Err(e) => {
                return Err(AssembleError::Apply(e));
            },
        }
        i += 1;
    }
    let mut derived = model.derive(authored.as_slice());
    let ghost more = derived@;
    let mut all = authored;
    all.append(&mut derived);
    let set = PatchSet::new(all);
    proof {
        assert(set@ =~= own + M::derived(model@, own)) by {
            assert(ops::seen(authored@ + more) =~= ops::seen(authored@) + ops::seen(more));
        }
    }
    match set.topo_order() {
        Err(e) => Err(AssembleError::Topo(e)),
        Ok(order) => {
            let list = copy_patches(&order);
            let packed = PatchSet::new(list);
            proof {
                assert(packed@ =~= ordered(set@));
            }
            Ok(packed)
        },
    }
}

/// Copies the patches that a running order refers to.
fn copy_patches(order: &Vec<&Patch>) -> (out: Vec<Patch>)
    ensures
        out@.len() == order@.len(),
        forall|j: int| 0 <= j < out@.len() ==> (#[trigger] out@[j])@ == order@[j]@,
{
    let mut out: Vec<Patch> = Vec::new();
    let mut i: usize = 0;
    while i < order.len()
        invariant
            i <= order@.len(),
            out@.len() == i,
            forall|j: int| 0 <= j < i ==> (#[trigger] out@[j])@ == order@[j]@,
        decreases order@.len() - i,
    {
        let p: &Patch = order[i];
        out.push(p.clone());
        i += 1;
    }
    out
}

// ---------------------------------------------------------------- commit and undo

/// Why a set was not committed.
#[derive(Debug, PartialEq)]
pub enum CommitError {
    /// The set has no running order; nothing was applied.
    Topo(TopoError),
    /// A patch failed; the ones before it were rolled back.
    Aborted { patch: PatchId, cause: PatchError },
    /// The set holds an AI patch that nobody reviewed; nothing was applied.
    UnreviewedAi(PatchId),
}

/// What a `CommitError` holds.
#[verifier::ext_equal]
pub enum CommitErrorView {
    Topo(TopoErrorView),
    Aborted { patch: Seq<char>, cause: PatchErrorView },
    UnreviewedAi(Seq<char>),
}

impl View for CommitError {
    type V = CommitErrorView;

    open spec fn view(&self) -> CommitErrorView {
        match *self {
            CommitError::Topo(e) => CommitErrorView::Topo(e@),
            CommitError::Aborted { patch, cause } => CommitErrorView::Aborted {
                patch: patch@,
                cause: cause@,
            },
            CommitError::UnreviewedAi(id) => CommitErrorView::UnreviewedAi(id@),
        }
    }
}

/// Applies patches in the given order. When one fails, the inverses of those already applied are
/// applied in reverse order. On success returns the inverse patches in order of application.
fn apply_sequence<M: DocumentModel>(model: &mut M, list: &Vec<Patch>) -> (r: Result<
    Vec<Patch>,
    CommitError,
>)
    requires
        run_ready::<M>(old(model)@, ops::seen(list@)),
    ensures
        match r {
            Ok(inverses) => run::<M>(old(model)@, ops::seen(list@)) == (Run::Done {
                state: final(model)@,
                inverses: ops::seen(inverses@),
            }),
            Err(e) => {
                &&& e@ matches CommitErrorView::Aborted { patch, cause }
                &&& run::<M>(old(model)@, ops::seen(list@)) == (Run::Failed {
                    state: final(model)@,
                    patch,
                    cause,
                })
            },
        },
{
    let ghost ps = ops::seen(list@);
    let mut inverses: Vec<Patch> = Vec::new();
    proof {
        assert(ops::seen(inverses@) =~= Seq::empty());
    }
    let mut i: usize = 0;
    while i < list.len()
        invariant
            i <= list@.len(),
            ps == ops::seen(list@),
            run_ready_from::<M>(model@, ps, i as int, ops::seen(inverses@)),
            run::<M>(old(model)@, ps) == run_from::<M>(model@, ps, i as int, ops::seen(inverses@)),
        decreases list@.len() - i,
    {
        let p = &list[i];
        let ghost before = inverses@;
        proof {
            assert(ps[i as int] == p@);
        }
        match model.apply_op(&p.target, &p.op) {
            Ok(op) => {
                let mut id = "inv:".to_string();
                id.append(p.id.0.as_str());
                let inv = Patch {
                    id: PatchId(id),
                    source: PatchSource::Authored,
                    target: p.target.clone(),
                    op,
                    depends_on: Vec::new(),
                };
                proof {
                    assert(inv@.depends_on =~= Seq::empty());
                    assert(inv@ == inverse_patch(p@, op@));
                }
                inverses.push(inv);
                proof {
                    assert(ops::seen(inverses@) =~= ops::seen(before).push(inv@));
                }
            },
            Err(cause) => {
                let ghost stopped = model@;
                let ghost invs = ops::seen(inverses@);
                let mut k: usize = inverses.len();
                proof {
                    assert(invs.take(k as int) =~= invs);
                }
                while k > 0
                    invariant
                        k <= inverses@.len(),
                        invs == ops::seen(inverses@),
                        rollback_ready::<M>(model@, invs.take(k as int)),
                        rollback::<M>(stopped, invs) == rollback::<M>(model@, invs.take(k as int)),
                    decreases k,
                {
                    k -= 1;
                    proof {
                        assert(invs.take(k + 1).drop_last() =~= invs.take(k as int));
                        assert(invs.take(k + 1).last() == inverses@[k as int]@);
                    }
                    let inv = &inverses[k];
                    let _ = model.apply_op(&inv.target, &inv.op);
                }
                return Err(CommitError::Aborted { patch: p.id.clone(), cause });
            },
        }
        i += 1;
    }
    Ok(inverses)
}

/// Commits a set atomically: patches run in dependency order, and when one fails everything is
/// rolled back. Returns the inverse set, in the order in which `undo` applies it. A set with an
/// AI patch that nobody reviewed is refused before anything runs.
pub fn commit<M: DocumentModel>(model: &mut M, set: &PatchSet) -> (r: Result<PatchSet, CommitError>)
    requires
        commit_ready::<M>(old(model)@, set@),
    ensures
        ({
            let (state, result) = commit_outcome::<M>(old(model)@, set@);
            &&& final(model)@ == state
            &&& match r {
                Ok(inverse) => result == Ok::<Seq<PatchView>, CommitErrorView>(inverse@),
                Err(e) => result == Err::<Seq<PatchView>, CommitErrorView>(e@),
            }
        }),
{
    let ghost ps = set@;
    let mut i: usize = 0;
    while i < set.patches.len()
        invariant
            i <= set.patches@.len(),
            ps == set@,
            forall|h: int| 0 <= h < i ==> !(#[trigger] ps[h]).unreviewed(),
        decreases set.patches@.len() - i,
    {
        let p = &set.patches[i];
        proof {
            assert(ps[i as int] == p@);
        }
        if let PatchSource::Ai { reviewed } = &p.source {
            if !*reviewed {
                proof {
                    assert(patchset::first_unreviewed(ps, i as int));
                    let c = choose|c: int| patchset::first_unreviewed(ps, c);
                    assert(patchset::first_unreviewed(ps, c));
                    assert(c == i) by {
                        if c < i {
                            assert(ps[c].unreviewed());
                        } else if i < c {
                            assert(ps[i as int].unreviewed());
                        }
                    }
                }
                return Err(CommitError::UnreviewedAi(p.id.clone()));
            }
        }
        i += 1;
    }
    let list = match set.topo_order() {
        Err(e) => return Err(CommitError::Topo(e)),
        Ok(order) => copy_patches(&order),
    };
    proof {
        assert(ops::seen(list@) =~= ordered(ps));
    }
    match apply_sequence(model, &list) {
        Err(e) => Err(e),
        Ok(inverses) => {
            let back = reversed(inverses);
            Ok(PatchSet::new(back))
        },
    }
}

/// The same patches, last one first.
fn reversed(list: Vec<Patch>) -> (out: Vec<Patch>)
    ensures
        ops::seen(out@) == ops::seen(list@).reverse(),
{
    let mut rest = list;
    let mut out: Vec<Patch> = Vec::new();
    while rest.len() > 0
        invariant
            rest@ == list@.take(rest@.len() as int),
            rest@.len() + out@.len() == list@.len(),
            forall|j: int| 0 <= j < out@.len() ==> #[trigger] out@[j] == list@[list@.len() - 1 - j],
        decreases rest@.len(),
    {
        if let Some(p) = rest.pop() {
            out.push(p);
            proof {
                assert(rest@ =~= list@.take(rest@.len() as int));
            }
        }
    }
    proof {
        assert(ops::seen(out@) =~= ops::seen(list@).reverse());
    }
    out
}

/// What undoing gives: the inverse patches run in the order in which they are stored.
pub open spec fn undo_outcome<M: DocumentModel>(state: M::V, inverse: Seq<PatchView>) -> (
    M::V,
    Result<(), CommitErrorView>,
) {
    match run::<M>(state, inverse) {
        Run::Done { state: next, inverses: _ } => (next, Ok(())),
        Run::Failed { state: left, patch, cause } => (
            left,
            Err(CommitErrorView::Aborted { patch, cause }),
        ),
    }
}

/// Takes a whole commit back by applying the inverse set that it returned.
pub fn undo<M: DocumentModel>(model: &mut M, inverse: &PatchSet) -> (r: Result<(), CommitError>)
    requires
        run_ready::<M>(old(model)@, inverse@),
    ensures
        ({
            let (state, result) = undo_outcome::<M>(old(model)@, inverse@);
            &&& final(model)@ == state
            &&& match r {
                Ok(()) => result == Ok::<(), CommitErrorView>(()),
                Err(e) => result == Err::<(), CommitErrorView>(e@),
            }
        }),
{
    match apply_sequence(model, &inverse.patches) {
        Ok(_) => Ok(()),
        Err(e) => Err(e),
    }
}

} // verus!
