//! What ordering and committing a set of patches comes to, told by the patches alone.
use crate::commit;
use crate::commit::{CommitErrorView, DocumentModel, PatchErrorView, Run};
use crate::laws;
use crate::ops::{OpView, PatchView, SourceView};
use crate::patchset;
use crate::patchset::TopoErrorView;
use vstd::prelude::*;

verus! {

// ---------------------------------------------------------------- the running order

/// Two patches of the set have the same id.
pub open spec fn ids_clash(ps: Seq<PatchView>) -> bool {
    exists|i: int, j: int|
        0 <= i < j < ps.len() && (#[trigger] ps[i]).id == (#[trigger] ps[j]).id
}

/// Some patch of the set has this id.
pub open spec fn is_member(ps: Seq<PatchView>, id: Seq<char>) -> bool {
    exists|i: int| 0 <= i < ps.len() && (#[trigger] ps[i]).id == id
}

/// Some patch depends on something that is not in the set.
pub open spec fn misses_something(ps: Seq<PatchView>) -> bool {
    exists|i: int, k: int|
        0 <= i < ps.len() && 0 <= k < ps[i].depends_on.len() && !is_member(
            ps,
            #[trigger] ps[i].depends_on[k],
        )
}

proof fn lemma_some_repeat(ps: Seq<PatchView>, j: int)
    requires
        0 <= j < ps.len(),
        patchset::id_known(ps, ps[j].id, j),
    ensures
        exists|i: int| patchset::first_repeat(ps, i),
    decreases j,
{
    if exists|h: int| 0 <= h < j && patchset::id_known(ps, (#[trigger] ps[h]).id, h) {
        let h = choose|h: int| 0 <= h < j && patchset::id_known(ps, (#[trigger] ps[h]).id, h);
        lemma_some_repeat(ps, h);
    } else {
        assert(patchset::first_repeat(ps, j));
    }
}

proof fn lemma_some_dangling(ps: Seq<PatchView>, i: int, k: int)
    requires
        0 <= i < ps.len(),
        0 <= k < ps[i].depends_on.len(),
        patchset::dangling(ps, i, k),
    ensures
        exists|h: int, l: int| patchset::first_dangling(ps, h, l),
    decreases i, k,
{
    if exists|h: int, l: int|
        0 <= h <= i && 0 <= l < ps[h].depends_on.len() && (h < i || l < k)
            && #[trigger] patchset::dangling(ps, h, l) {
        let (h, l) = choose|h: int, l: int|
            0 <= h <= i && 0 <= l < ps[h].depends_on.len() && (h < i || l < k)
                && #[trigger] patchset::dangling(ps, h, l);
        lemma_some_dangling(ps, h, l);
    } else {
        assert(patchset::first_dangling(ps, i, k));
    }
}

/// Why a set cannot be ordered. Two equal ids come first: the error names an id that stands twice.
/// Then a dependency on something outside the set: the error names the patch and what it misses.
/// Otherwise, and only then, patches wait for each other: each of those that the error names depends
/// on one of them.
pub proof fn law_why_there_is_no_order(ps: Seq<PatchView>)
    ensures
        ids_clash(ps) <==> patchset::topo(ps) matches Err(TopoErrorView::DuplicateId(_)),
        patchset::topo(ps) matches Err(TopoErrorView::DuplicateId(id)) ==> exists|i: int, j: int|
            0 <= i < j < ps.len() && (#[trigger] ps[i]).id == id && (#[trigger] ps[j]).id == id,
        !ids_clash(ps) && misses_something(ps) <==> patchset::topo(ps) matches Err(
            TopoErrorView::DanglingDependency { patch, missing },
        ),
        patchset::topo(ps) matches Err(TopoErrorView::DanglingDependency { patch, missing })
            ==> !is_member(ps, missing) && exists|i: int|
            0 <= i < ps.len() && (#[trigger] ps[i]).id == patch && ps[i].depends_on.contains(missing),
        patchset::topo(ps) matches Err(TopoErrorView::Cycle(ids)) ==> {
            &&& ids.len() > 0
            &&& forall|x: int|
                0 <= x < ids.len() ==> exists|i: int, k: int|
                    0 <= i < ps.len() && (#[trigger] ps[i]).id == #[trigger] ids[x] && 0 <= k
                        < ps[i].depends_on.len() && ids.contains(#[trigger] ps[i].depends_on[k])
        },
{
    if ids_clash(ps) {
        let (i, j) = choose|i: int, j: int|
            0 <= i < j < ps.len() && (#[trigger] ps[i]).id == (#[trigger] ps[j]).id;
        assert(patchset::id_known(ps, ps[j].id, j));
        lemma_some_repeat(ps, j);
    }
    if exists|i: int| patchset::first_repeat(ps, i) {
        let i = choose|i: int| patchset::first_repeat(ps, i);
        let h = choose|h: int| 0 <= h < i && (#[trigger] ps[h]).id == ps[i].id;
        assert(ps[h].id == ps[i].id);
    } else {
        if misses_something(ps) {
            let (i, k) = choose|i: int, k: int|
                0 <= i < ps.len() && 0 <= k < ps[i].depends_on.len() && !is_member(
                    ps,
                    #[trigger] ps[i].depends_on[k],
                );
            assert(patchset::dangling(ps, i, k));
            lemma_some_dangling(ps, i, k);
        }
        if exists|i: int, k: int| patchset::first_dangling(ps, i, k) {
            let (i, k) = choose|i: int, k: int| patchset::first_dangling(ps, i, k);
            assert(!is_member(ps, ps[i].depends_on[k]));
            assert(ps[i].depends_on.contains(ps[i].depends_on[k]));
        } else {
            let done = patchset::greedy(ps, Seq::empty());
            let n = ps.len() as int;
            assert(patchset::sound_prefix(ps, Seq::<int>::empty()));
            patchset::lemma_greedy_sound(ps, Seq::empty());
            if done.len() != ps.len() {
                let ids = patchset::left_out(ps, done, n);
                patchset::lemma_some_index_missing(done, ps.len());
                let m = choose|i: int| 0 <= i < ps.len() && !done.contains(i);
                lemma_left_out(ps, done, n, m);
                assert forall|x: int| 0 <= x < ids.len() implies exists|i: int, k: int|
                    0 <= i < ps.len() && (#[trigger] ps[i]).id == #[trigger] ids[x] && 0 <= k
                        < ps[i].depends_on.len() && ids.contains(#[trigger] ps[i].depends_on[k]) by {
                    let i = lemma_left_out_from(ps, done, n, x);
                    if patchset::is_ready(ps, done, i) {
                        lemma_some_ready(ps, done, i);
                    }
                    let k = choose|k: int|
                        0 <= k < ps[i].depends_on.len() && !patchset::placed(
                            ps,
                            done,
                            #[trigger] ps[i].depends_on[k],
                        );
                    let dep = ps[i].depends_on[k];
                    assert(is_member(ps, dep));
                    let d = choose|d: int| 0 <= d < ps.len() && (#[trigger] ps[d]).id == dep;
                    if done.contains(d) {
                        let y = choose|y: int| 0 <= y < done.len() && done[y] == d;
                        assert(ps[done[y]].id == dep);
                    }
                    lemma_left_out(ps, done, n, d);
                    assert(ids.contains(ps[i].depends_on[k]));
                }
            }
        }
    }
}

proof fn lemma_left_out(ps: Seq<PatchView>, done: Seq<int>, n: int, m: int)
    requires
        0 <= m < n <= ps.len(),
        !done.contains(m),
    ensures
        patchset::left_out(ps, done, n).contains(ps[m].id),
    decreases n,
{
    let all = patchset::left_out(ps, done, n);
    let rest = patchset::left_out(ps, done, n - 1);
    if m < n - 1 {
        lemma_left_out(ps, done, n - 1, m);
        let x = choose|x: int| 0 <= x < rest.len() && rest[x] == ps[m].id;
        assert(all[x] == ps[m].id);
    } else {
        assert(all.last() == ps[m].id);
    }
}

proof fn lemma_left_out_from(ps: Seq<PatchView>, done: Seq<int>, n: int, x: int) -> (i: int)
    requires
        0 <= n <= ps.len(),
        0 <= x < patchset::left_out(ps, done, n).len(),
    ensures
        0 <= i < n,
        !done.contains(i),
        patchset::left_out(ps, done, n)[x] == ps[i].id,
    decreases n,
{
    let rest = patchset::left_out(ps, done, n - 1);
    if done.contains(n - 1) || x < rest.len() {
        lemma_left_out_from(ps, done, n - 1, x)
    } else {
        n - 1
    }
}

proof fn lemma_some_ready(ps: Seq<PatchView>, done: Seq<int>, i: int)
    requires
        0 <= i < ps.len(),
        patchset::is_ready(ps, done, i),
    ensures
        exists|h: int| patchset::next_ready(ps, done, h),
    decreases i,
{
    if exists|h: int| 0 <= h < i && #[trigger] patchset::is_ready(ps, done, h) {
        let h = choose|h: int| 0 <= h < i && #[trigger] patchset::is_ready(ps, done, h);
        lemma_some_ready(ps, done, h);
    } else {
        assert(patchset::next_ready(ps, done, i));
    }
}

/// The running order holds every patch of the set once. A patch that another one depends on runs
/// before it; and where a patch runs before one that stands earlier in the set, that one was still
/// waiting for a dependency.
pub proof fn law_running_order(ps: Seq<PatchView>, a: int, b: int)
    requires
        patchset::topo(ps) is Ok,
        0 <= a < ps.len(),
        0 <= b < ps.len(),
    ensures
        ({
            let order = patchset::topo(ps)->Ok_0;
            let list = commit::ordered(ps);
            &&& list.len() == ps.len()
            &&& order.len() == ps.len()
            &&& order.no_duplicates()
            &&& 0 <= order[a] < ps.len()
            &&& list[a] == ps[order[a]]
            &&& list[a].depends_on.contains(list[b].id) ==> b < a
            &&& a < b && order[b] < order[a] ==> exists|k: int|
                0 <= k < list[b].depends_on.len() && forall|j: int|
                    0 <= j < a ==> (#[trigger] list[j]).id != #[trigger] list[b].depends_on[k]
        }),
{
    law_why_there_is_no_order(ps);
    patchset::law_order_puts_dependencies_first(ps);
    let order = patchset::topo(ps)->Ok_0;
    let list = commit::ordered(ps);
    if list[a].depends_on.contains(list[b].id) {
        let k = choose|k: int| 0 <= k < list[a].depends_on.len() && list[a].depends_on[k]
            == list[b].id;
        assert(patchset::placed(ps, order.take(a), ps[order[a]].depends_on[k]));
        let done = order.take(a);
        let j = choose|j: int| 0 <= j < done.len() && ps[#[trigger] done[j]].id == list[b].id;
        assert(done[j] == order[j]);
        assert(ps[order[j]].id == ps[order[b]].id);
        if order[j] < order[b] {
            assert(ids_clash(ps));
        } else if order[b] < order[j] {
            assert(ids_clash(ps));
        }
        assert(j == b);
    }
    if a < b && order[b] < order[a] {
        patchset::law_order_is_stable(ps, a, b);
        let done = order.take(a);
        if done.contains(order[b]) {
            let j = choose|j: int| 0 <= j < done.len() && done[j] == order[b];
            assert(order[j] == order[b]);
        }
        let k = choose|k: int|
            0 <= k < ps[order[b]].depends_on.len() && !patchset::placed(
                ps,
                done,
                #[trigger] ps[order[b]].depends_on[k],
            );
        assert forall|j: int| 0 <= j < a implies (#[trigger] list[j]).id
            != list[b].depends_on[k] by {
            assert(done[j] == order[j]);
            assert(ps[done[j]].id == list[j].id);
        }
    }
}

// ---------------------------------------------------------------- committing

/// The patch comes from an AI and nobody reviewed it.
pub open spec fn waits_for_review(p: PatchView) -> bool {
    p.source == (SourceView::Ai { reviewed: false })
}

/// Unreviewed proposals: a set with a patch that waits for review is refused before all else, and
/// the error names the first such patch. Approval makes every AI patch reviewed and changes nothing
/// else.
pub proof fn law_unreviewed_sets_are_refused<M: DocumentModel>(state: M::V, ps: Seq<PatchView>, i: int)
    requires
        0 <= i < ps.len(),
    ensures
        waits_for_review(ps[i]) && (forall|j: int|
            0 <= j < i ==> !waits_for_review(#[trigger] ps[j])) ==> commit::commit_outcome::<M>(
            state,
            ps,
        ) == (
            state,
            Err::<Seq<PatchView>, CommitErrorView>(CommitErrorView::UnreviewedAi(ps[i].id)),
        ),
        ({
            let p = ps[i].reviewed();
            &&& p == (PatchView { source: p.source, ..ps[i] })
            &&& p.source == if ps[i].source is Ai {
                SourceView::Ai { reviewed: true }
            } else {
                ps[i].source
            }
        }),
{
    if waits_for_review(ps[i]) && (forall|j: int|
        0 <= j < i ==> !waits_for_review(#[trigger] ps[j])) {
        assert(ps[i].unreviewed());
        assert forall|j: int| 0 <= j < i implies !(#[trigger] ps[j]).unreviewed() by {
            assert(!waits_for_review(ps[j]));
        }
        assert(patchset::first_unreviewed(ps, i));
        let c = choose|c: int| patchset::first_unreviewed(ps, c);
        if c < i {
            assert(!ps[c].unreviewed());
        } else if i < c {
            assert(!ps[i].unreviewed());
        }
    }
}

/// Patch number `k` is the first of the run that fails, with this cause.
pub open spec fn fails_first<M: DocumentModel>(
    state: M::V,
    list: Seq<PatchView>,
    k: int,
    cause: PatchErrorView,
) -> bool {
    &&& 0 <= k < list.len()
    &&& M::outcome(laws::state_before::<M>(state, list, k), list[k].target, list[k].op) == Err::<
        (M::V, OpView),
        PatchErrorView,
    >(cause)
    &&& forall|j: int|
        0 <= j < k ==> M::outcome(
            laws::state_before::<M>(state, list, j),
            (#[trigger] list[j]).target,
            list[j].op,
        ) is Ok
}

/// Every patch of the run works.
pub open spec fn all_work<M: DocumentModel>(state: M::V, list: Seq<PatchView>) -> bool {
    forall|j: int|
        0 <= j < list.len() ==> M::outcome(
            laws::state_before::<M>(state, list, j),
            (#[trigger] list[j]).target,
            list[j].op,
        ) is Ok
}

proof fn lemma_run_by_states<M: DocumentModel>(
    start: M::V,
    list: Seq<PatchView>,
    n: int,
    inverses: Seq<PatchView>,
    k: int,
    cause: PatchErrorView,
)
    requires
        0 <= n <= list.len(),
        all_work::<M>(start, list) || (n <= k && fails_first::<M>(start, list, k, cause)),
    ensures
        all_work::<M>(start, list) ==> match commit::run_from::<M>(
            laws::state_before::<M>(start, list, n),
            list,
            n,
            inverses,
        ) {
            Run::Done { state, inverses: _ } => state == laws::state_before::<M>(
                start,
                list,
                list.len() as int,
            ),
            _ => false,
        },
        fails_first::<M>(start, list, k, cause) ==> match commit::run_from::<M>(
            laws::state_before::<M>(start, list, n),
            list,
            n,
            inverses,
        ) {
            Run::Failed { state: _, patch, cause: c } => patch == list[k].id && c == cause,
            _ => false,
        },
        all_work::<M>(start, list) ==> commit::feed_from::<M>(
            laws::state_before::<M>(start, list, n),
            list,
            n,
        ) == (laws::state_before::<M>(start, list, list.len() as int), None::<PatchErrorView>),
        fails_first::<M>(start, list, k, cause) ==> commit::feed_from::<M>(
            laws::state_before::<M>(start, list, n),
            list,
            n,
        ) == (laws::state_before::<M>(start, list, k), Some(cause)),
    decreases list.len() - n,
{
    if n < list.len() {
        let here = laws::state_before::<M>(start, list, n);
        let p = list[n];
        if fails_first::<M>(start, list, k, cause) && n == k {
            assert(M::outcome(here, p.target, p.op) is Err);
            if all_work::<M>(start, list) {
                assert(M::outcome(here, list[n].target, list[n].op) is Ok);
            }
        } else {
            assert(M::outcome(here, list[n].target, list[n].op) is Ok);
            let (next, op) = M::outcome(here, p.target, p.op)->Ok_0;
            assert(laws::state_before::<M>(start, list, n + 1) == next);
            lemma_run_by_states::<M>(
                start,
                list,
                n + 1,
                inverses.push(commit::inverse_patch(p, op)),
                k,
                cause,
            );
        }
    }
}

/// A reviewed set that can be ordered runs patch by patch in its running order. If every patch works,
/// the commit succeeds with the state after the last one; if one fails, the error names the first
/// that does, and why.
pub proof fn law_commit_runs_patch_by_patch<M: DocumentModel>(
    state: M::V,
    ps: Seq<PatchView>,
    k: int,
    cause: PatchErrorView,
)
    requires
        forall|i: int| 0 <= i < ps.len() ==> !waits_for_review(#[trigger] ps[i]),
        patchset::topo(ps) is Ok,
    ensures
        ({
            let list = commit::ordered(ps);
            let (end, result) = commit::commit_outcome::<M>(state, ps);
            &&& all_work::<M>(state, list) ==> result is Ok && end == laws::state_before::<M>(
                state,
                list,
                list.len() as int,
            )
            &&& fails_first::<M>(state, list, k, cause) ==> result == Err::<
                Seq<PatchView>,
                CommitErrorView,
            >(CommitErrorView::Aborted { patch: list[k].id, cause })
        }),
{
    assert forall|i: int| 0 <= i < ps.len() implies !(#[trigger] ps[i]).unreviewed() by {
        assert(!waits_for_review(ps[i]));
    }
    let list = commit::ordered(ps);
    if all_work::<M>(state, list) || fails_first::<M>(state, list, k, cause) {
        lemma_run_by_states::<M>(state, list, 0, Seq::empty(), k, cause);
    }
}

/// A reviewed set that cannot be ordered is refused for that, and nothing runs.
pub proof fn law_unordered_sets_are_refused<M: DocumentModel>(
    state: M::V,
    ps: Seq<PatchView>,
    e: TopoErrorView,
)
    requires
        forall|i: int| 0 <= i < ps.len() ==> !waits_for_review(#[trigger] ps[i]),
        patchset::topo(ps) == Err::<Seq<int>, TopoErrorView>(e),
    ensures
        commit::commit_outcome::<M>(state, ps) == (
            state,
            Err::<Seq<PatchView>, CommitErrorView>(CommitErrorView::Topo(e)),
        ),
{
    assert forall|i: int| 0 <= i < ps.len() implies !(#[trigger] ps[i]).unreviewed() by {
        assert(!waits_for_review(ps[i]));
    }
}

/// An inverse set runs patch by patch in the order in which it stands.
pub proof fn law_undo_runs_patch_by_patch<M: DocumentModel>(
    state: M::V,
    list: Seq<PatchView>,
    k: int,
    cause: PatchErrorView,
)
    ensures
        ({
            let (end, result) = commit::undo_outcome::<M>(state, list);
            &&& all_work::<M>(state, list) ==> result is Ok && end == laws::state_before::<M>(
                state,
                list,
                list.len() as int,
            )
            &&& fails_first::<M>(state, list, k, cause) ==> result == Err::<(), CommitErrorView>(
                CommitErrorView::Aborted { patch: list[k].id, cause },
            )
        }),
{
    if all_work::<M>(state, list) || fails_first::<M>(state, list, k, cause) {
        lemma_run_by_states::<M>(state, list, 0, Seq::empty(), k, cause);
    }
}

/// Assembling applies the authored patches one after the other: all of them, or those before the
/// first that fails.
pub proof fn law_assembling_applies_in_turn<M: DocumentModel>(
    state: M::V,
    list: Seq<PatchView>,
    k: int,
    cause: PatchErrorView,
)
    ensures
        all_work::<M>(state, list) ==> commit::feed_from::<M>(state, list, 0) == (
            laws::state_before::<M>(state, list, list.len() as int),
            None::<PatchErrorView>,
        ),
        fails_first::<M>(state, list, k, cause) ==> commit::feed_from::<M>(state, list, 0) == (
            laws::state_before::<M>(state, list, k),
            Some(cause),
        ),
{
    if all_work::<M>(state, list) || fails_first::<M>(state, list, k, cause) {
        lemma_run_by_states::<M>(state, list, 0, Seq::empty(), k, cause);
    }
}

/// The state in which a patch is applied is what the patches before it made, one after the other.
pub proof fn law_states_of_a_run<M: DocumentModel>(state: M::V, list: Seq<PatchView>, k: int)
    requires
        0 <= k < list.len(),
    ensures
        laws::state_before::<M>(state, list, 0) == state,
        M::outcome(laws::state_before::<M>(state, list, k), list[k].target, list[k].op) matches Ok(
            (next, _),
        ) ==> laws::state_before::<M>(state, list, k + 1) == next,
{
}

/// A rollback takes the last inverse first, and goes on where one fails.
pub proof fn law_rolling_back<M: DocumentModel>(state: M::V, inverses: Seq<PatchView>, p: PatchView)
    ensures
        commit::rollback::<M>(state, Seq::empty()) == state,
        commit::rollback::<M>(state, inverses.push(p)) == match M::outcome(state, p.target, p.op) {
            Ok((next, _)) => commit::rollback::<M>(next, inverses),
            Err(_) => commit::rollback::<M>(state, inverses),
        },
{
    assert(inverses.push(p).drop_last() =~= inverses);
}

} // verus!
