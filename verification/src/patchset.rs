//! Sets of patches that are handled as one unit, and the order in which they run.
use crate::ops;
use crate::ops::{Patch, PatchId, PatchSource, PatchView};
use vstd::prelude::*;

verus! {

/// A group of patches that is applied atomically, in dependency order.
#[derive(Debug)]
pub struct PatchSet {
    pub patches: Vec<Patch>,
}

impl View for PatchSet {
    type V = Seq<PatchView>;

    open spec fn view(&self) -> Seq<PatchView> {
        ops::seen(self.patches@)
    }
}

impl Clone for PatchSet {
    fn clone(&self) -> (r: Self)
        ensures
            r@ == self@,
    {
        let mut patches: Vec<Patch> = Vec::new();
        let mut i: usize = 0;
        while i < self.patches.len()
            invariant
                i <= self.patches@.len(),
                patches@.len() == i,
                forall|j: int| 0 <= j < i ==> (#[trigger] patches@[j])@ == self.patches@[j]@,
            decreases self.patches@.len() - i,
        {
            patches.push(self.patches[i].clone());
            i += 1;
        }
        let r = PatchSet { patches };
        proof {
            assert(r@ =~= self@);
        }
        r
    }
}

/// Why a set of patches has no order.
#[derive(Debug, PartialEq)]
pub enum TopoError {
    /// A dependency that names no patch of the set.
    DanglingDependency { patch: PatchId, missing: PatchId },
    /// Two patches with the same id.
    DuplicateId(PatchId),
    /// The dependencies form a cycle; holds the ids that could not be placed, in input order.
    Cycle(Vec<PatchId>),
}

/// What a `TopoError` holds.
#[verifier::ext_equal]
pub enum TopoErrorView {
    DanglingDependency { patch: Seq<char>, missing: Seq<char> },
    DuplicateId(Seq<char>),
    Cycle(Seq<Seq<char>>),
}

impl View for TopoError {
    type V = TopoErrorView;

    open spec fn view(&self) -> TopoErrorView {
        match *self {
            TopoError::DanglingDependency { patch, missing } => TopoErrorView::DanglingDependency {
                patch: patch@,
                missing: missing@,
            },
            TopoError::DuplicateId(id) => TopoErrorView::DuplicateId(id@),
            TopoError::Cycle(ids) => TopoErrorView::Cycle(ops::seen(ids@)),
        }
    }
}

// ---------------------------------------------------------------- the order, as mathematics

/// Some patch before position `n` has this id.
pub open spec fn id_known(ps: Seq<PatchView>, id: Seq<char>, n: int) -> bool {
    exists|j: int| 0 <= j < n && (#[trigger] ps[j]).id == id
}

/// `i` is the first patch whose id was used before.
pub open spec fn first_repeat(ps: Seq<PatchView>, i: int) -> bool {
    &&& 0 <= i < ps.len()
    &&& id_known(ps, ps[i].id, i)
    &&& forall|h: int| 0 <= h < i ==> !id_known(ps, (#[trigger] ps[h]).id, h)
}

/// Dependency `k` of patch `i` names no patch of the set.
pub open spec fn dangling(ps: Seq<PatchView>, i: int, k: int) -> bool {
    !id_known(ps, ps[i].depends_on[k], ps.len() as int)
}

/// Dependency `k` of patch `i` is the first one that dangles.
pub open spec fn first_dangling(ps: Seq<PatchView>, i: int, k: int) -> bool {
    &&& 0 <= i < ps.len()
    &&& 0 <= k < ps[i].depends_on.len()
    &&& dangling(ps, i, k)
    &&& forall|h: int, l: int|
        0 <= h <= i && 0 <= l < ps[h].depends_on.len() && (h < i || l < k) ==> !#[trigger] dangling(ps, h, l)
}

/// A patch with this id is among the placed ones.
pub open spec fn placed(ps: Seq<PatchView>, done: Seq<int>, id: Seq<char>) -> bool {
    exists|j: int| 0 <= j < done.len() && ps[#[trigger] done[j]].id == id
}

/// Patch `i` is not placed yet and all its dependencies are.
pub open spec fn is_ready(ps: Seq<PatchView>, done: Seq<int>, i: int) -> bool {
    &&& !done.contains(i)
    &&& forall|k: int|
        0 <= k < ps[i].depends_on.len() ==> placed(ps, done, #[trigger] ps[i].depends_on[k])
}

/// Patch `i` is the ready patch that comes first in the input.
pub open spec fn next_ready(ps: Seq<PatchView>, done: Seq<int>, i: int) -> bool {
    &&& 0 <= i < ps.len()
    &&& is_ready(ps, done, i)
    &&& forall|h: int| 0 <= h < i ==> !#[trigger] is_ready(ps, done, h)
}

/// Keeps placing the first ready patch until none is ready.
pub open spec fn greedy(ps: Seq<PatchView>, done: Seq<int>) -> Seq<int>
    decreases ps.len() - done.len(),
{
    if done.len() < ps.len() && exists|i: int| next_ready(ps, done, i) {
        greedy(ps, done.push(choose|i: int| next_ready(ps, done, i)))
    } else {
        done
    }
}

/// The ids of the first `n` patches that are not placed, in input order.
pub open spec fn left_out(ps: Seq<PatchView>, done: Seq<int>, n: int) -> Seq<Seq<char>>
    decreases n,
{
    if n <= 0 {
        Seq::empty()
    } else if done.contains(n - 1) {
        left_out(ps, done, n - 1)
    } else {
        left_out(ps, done, n - 1).push(ps[n - 1].id)
    }
}

/// The order in which the patches of a set run, as indices into the set, or why there is none.
pub open spec fn topo(ps: Seq<PatchView>) -> Result<Seq<int>, TopoErrorView> {
    if exists|i: int| first_repeat(ps, i) {
        Err(TopoErrorView::DuplicateId(ps[choose|i: int| first_repeat(ps, i)].id))
    } else if exists|i: int, k: int| first_dangling(ps, i, k) {
        let (i, k) = choose|i: int, k: int| first_dangling(ps, i, k);
        Err(TopoErrorView::DanglingDependency { patch: ps[i].id, missing: ps[i].depends_on[k] })
    } else {
        let order = greedy(ps, Seq::empty());
        if order.len() == ps.len() {
            Ok(order)
        } else {
            Err(TopoErrorView::Cycle(left_out(ps, order, ps.len() as int)))
        }
    }
}

/// The patches of `ps` taken in the order given by indices.
pub open spec fn permuted(ps: Seq<PatchView>, order: Seq<int>) -> Seq<PatchView> {
    Seq::new(order.len(), |i: int| ps[order[i]])
}

/// The first patch that an AI made and nobody reviewed.
pub open spec fn first_unreviewed(ps: Seq<PatchView>, i: int) -> bool {
    &&& 0 <= i < ps.len()
    &&& ps[i].unreviewed()
    &&& forall|h: int| 0 <= h < i ==> !(#[trigger] ps[h]).unreviewed()
}

/// Only one dependency is the first that dangles.
proof fn lemma_first_dangling_unique(ps: Seq<PatchView>, i: int, k: int, h: int, l: int)
    requires
        first_dangling(ps, i, k),
        first_dangling(ps, h, l),
    ensures
        i == h && k == l,
{
    if i < h || (i == h && k < l) {
        assert(dangling(ps, i, k));
    } else if h < i || (h == i && l < k) {
        assert(dangling(ps, h, l));
    }
}

/// Placed indices are in range and never repeat.
pub open spec fn distinct_indices(ps: Seq<PatchView>, done: Seq<int>) -> bool {
    &&& done.no_duplicates()
    &&& forall|j: int| 0 <= j < done.len() ==> 0 <= #[trigger] done[j] < ps.len()
}

impl PatchSet {
    pub fn new(patches: Vec<Patch>) -> (r: Self)
        ensures
            r.patches == patches,
            r@ == ops::seen(patches@),
    {
        PatchSet { patches }
    }

    /// The review: marks every AI patch of the set as reviewed. Calling it states that a person
    /// has seen these changes and lets them pass.
    pub fn approve_ai(self) -> (r: Self)
        ensures
            r@ == Seq::new(self@.len(), |i: int| self@[i].reviewed()),
    {
        let mut patches = self.patches;
        let mut i: usize = 0;
        while i < patches.len()
            invariant
                i <= patches@.len(),
                patches@.len() == self.patches@.len(),
                forall|j: int| 0 <= j < i ==> (#[trigger] patches@[j])@ == self.patches@[j]@.reviewed(),
                forall|j: int| i <= j < patches@.len() ==> #[trigger] patches@[j] == self.patches@[j],
            decreases patches@.len() - i,
        {
            if let PatchSource::Ai { reviewed } = &patches[i].source {
                patches[i].source = PatchSource::Ai { reviewed: true };
            }
            i += 1;
        }
        let r = PatchSet { patches };
        proof {
            assert(r@ =~= Seq::new(self@.len(), |i: int| self@[i].reviewed()));
        }
        r
    }

    /// Whether some patch before position `n` has this id.
    fn knows_id(&self, id: &PatchId, n: usize) -> (r: bool)
        requires
            n <= self.patches@.len(),
        ensures
            r == id_known(self@, id@, n as int),
    {
        let mut j: usize = 0;
        while j < n
            invariant
                j <= n <= self.patches@.len(),
                !id_known(self@, id@, j as int),
            decreases n - j,
        {
            if self.patches[j].id.0 == id.0 {
                proof {
                    assert(self@[j as int].id == id@);
                }
                return true;
            }
            j += 1;
        }
        false
    }

    /// Whether patch `i`, which is not placed, has all its dependencies placed.
    fn deps_placed(&self, flags: &Vec<bool>, i: usize, Ghost(done): Ghost<Seq<int>>) -> (r: bool)
        requires
            i < self.patches@.len(),
            flags@.len() == self.patches@.len(),
            distinct_indices(self@, done),
            forall|j: int| 0 <= j < flags@.len() ==> #[trigger] flags@[j] == done.contains(j),
            !done.contains(i as int),
        ensures
            r == is_ready(self@, done, i as int),
    {
        let deps = &self.patches[i].depends_on;
        let ghost p = self@[i as int];
        let mut k: usize = 0;
        while k < deps.len()
            invariant
                i < self.patches@.len(),
                flags@.len() == self.patches@.len(),
                distinct_indices(self@, done),
                forall|j: int| 0 <= j < flags@.len() ==> #[trigger] flags@[j] == done.contains(j),
                !done.contains(i as int),
                deps == self.patches@[i as int].depends_on,
                p == self@[i as int],
                k <= deps@.len(),
                deps@.len() == p.depends_on.len(),
                forall|l: int| 0 <= l < k ==> placed(self@, done, #[trigger] p.depends_on[l]),
            decreases deps@.len() - k,
        {
            let mut found = false;
            let mut j: usize = 0;
            while j < self.patches.len()
                invariant
                    flags@.len() == self.patches@.len(),
                    distinct_indices(self@, done),
                    forall|m: int| 0 <= m < flags@.len() ==> #[trigger] flags@[m] == done.contains(m),
                    k < deps@.len(),
                    deps@[k as int]@ == p.depends_on[k as int],
                    j <= self.patches@.len(),
                    found == exists|m: int|
                        0 <= m < j && flags@[m] && (#[trigger] self@[m]).id == deps@[k as int]@,
                decreases self.patches@.len() - j,
            {
                proof {
                    assert(self@[j as int].id == self.patches@[j as int].id@);
                }
                if flags[j] && self.patches[j].id.0 == deps[k].0 {
                    found = true;
                }
                j += 1;
            }
            proof {
                let id = p.depends_on[k as int];
                if found {
                    let m = choose|m: int| 0 <= m < j && flags@[m] && (#[trigger] self@[m]).id == id;
                    assert(done.contains(m));
                    let q = choose|q: int| 0 <= q < done.len() && done[q] == m;
                    assert(self@[done[q]].id == id);
                    assert(placed(self@, done, id));
                } else if placed(self@, done, id) {
                    let q = choose|q: int| 0 <= q < done.len() && self@[#[trigger] done[q]].id == id;
                    assert(done.contains(done[q]));
                    assert(flags@[done[q]]);
                    assert(false);
                }
            }
            if !found {
                return false;
            }
            k += 1;
        }
        true
    }

    /// The stable topological order of the set: dependencies come first, and patches without a
    /// constraint between them keep their input order. Each step takes the patch that comes
    /// first in the input among those whose dependencies are all placed.
    pub fn topo_order(&self) -> (r: Result<Vec<&Patch>, TopoError>)
        ensures
            match r {
                Ok(v) => {
                    &&& topo(self@) matches Ok(order)
                    &&& v@.len() == order.len()
                    &&& forall|i: int| 0 <= i < v@.len() ==> (#[trigger] v@[i])@ == self@[order[i]]
                },
                Err(e) => topo(self@) == Err::<Seq<int>, TopoErrorView>(e@),
            },
    {
        let n = self.patches.len();
        let ghost ps = self@;

        let mut i: usize = 0;
        while i < n
            invariant
                i <= n,
                n == self.patches@.len(),
                ps == self@,
                forall|h: int| 0 <= h < i ==> !id_known(ps, (#[trigger] ps[h]).id, h),
            decreases n - i,
        {
            if self.knows_id(&self.patches[i].id, i) {
                proof {
                    assert(first_repeat(ps, i as int));
                    let c = choose|c: int| first_repeat(ps, c);
                    assert(first_repeat(ps, c));
                    assert(ps[c].id == ps[i as int].id) by {
                        if c < i {
                            assert(id_known(ps, ps[c].id, c));
                        } else if i < c {
                            assert(id_known(ps, ps[i as int].id, i as int));
                        }
                    }
                }
                return Err(TopoError::DuplicateId(self.patches[i].id.clone()));
            }
            i += 1;
        }
        proof {
            assert forall|c: int| !first_repeat(ps, c) by {
                if first_repeat(ps, c) {
                    assert(id_known(ps, ps[c].id, c));
                }
            }
        }

        let mut i: usize = 0;
        while i < n
            invariant
                i <= n,
                n == self.patches@.len(),
                ps == self@,
                forall|c: int| !first_repeat(ps, c),
                forall|h: int, l: int|
                    0 <= h < i && 0 <= l < ps[h].depends_on.len() ==> !#[trigger] dangling(ps, h, l),
            decreases n - i,
        {
            let deps = &self.patches[i].depends_on;
            let mut k: usize = 0;
            while k < deps.len()
                invariant
                    i < n,
                    n == self.patches@.len(),
                    ps == self@,
                    deps == self.patches@[i as int].depends_on,
                    deps@.len() == ps[i as int].depends_on.len(),
                    k <= deps@.len(),
                    forall|c: int| !first_repeat(ps, c),
                    forall|h: int, l: int|
                        0 <= h <= i && 0 <= l < ps[h].depends_on.len() && (h < i || l < k)
                            ==> !#[trigger] dangling(ps, h, l),
                decreases deps@.len() - k,
            {
                proof {
                    assert(ps[i as int].depends_on[k as int] == deps@[k as int]@);
                }
                if !self.knows_id(&deps[k], n) {
                    proof {
                        assert(dangling(ps, i as int, k as int));
                        assert(first_dangling(ps, i as int, k as int));
                        let (h, l) = choose|h: int, l: int| first_dangling(ps, h, l);
                        lemma_first_dangling_unique(ps, i as int, k as int, h, l);
                    }
                    return Err(
                        TopoError::DanglingDependency {
                            patch: self.patches[i].id.clone(),
                            missing: deps[k].clone(),
                        },
                    );
                }
                k += 1;
            }
            i += 1;
        }
        proof {
            assert forall|h: int, l: int| !first_dangling(ps, h, l) by {
                if first_dangling(ps, h, l) {
                    assert(dangling(ps, h, l));
                }
            }
        }

        let mut flags: Vec<bool> = Vec::new();
        let mut i: usize = 0;
        while i < n
            invariant
                i <= n,
                flags@.len() == i,
                forall|j: int| 0 <= j < i ==> !#[trigger] flags@[j],
            decreases n - i,
        {
            flags.push(false);
            i += 1;
        }

        let mut order: Vec<&Patch> = Vec::new();
        let ghost mut done: Seq<int> = Seq::empty();
        while order.len() < n
            invariant
                n == self.patches@.len(),
                ps == self@,
                forall|c: int| !first_repeat(ps, c),
                forall|h: int, l: int| !first_dangling(ps, h, l),
                distinct_indices(ps, done),
                flags@.len() == n,
                forall|j: int| 0 <= j < n ==> #[trigger] flags@[j] == done.contains(j),
                order@.len() == done.len(),
                done.len() <= n,
                forall|j: int| 0 <= j < done.len() ==> (#[trigger] order@[j])@ == ps[done[j]],
                greedy(ps, Seq::empty()) == greedy(ps, done),
            decreases n - order@.len(),
        {
            let ghost old_done = done;
            let mut progressed = false;
            let mut i: usize = 0;
            while i < n && !progressed
                invariant
                    n == self.patches@.len(),
                    ps == self@,
                    i <= n,
                    distinct_indices(ps, done),
                    flags@.len() == n,
                    forall|j: int| 0 <= j < n ==> #[trigger] flags@[j] == done.contains(j),
                    order@.len() == done.len(),
                    done.len() <= n,
                    !progressed ==> done.len() < n,
                    forall|j: int| 0 <= j < done.len() ==> (#[trigger] order@[j])@ == ps[done[j]],
                    greedy(ps, Seq::empty()) == greedy(ps, done),
                    !progressed ==> forall|h: int| 0 <= h < i ==> !#[trigger] is_ready(ps, done, h),
                    !progressed ==> done == old_done,
                    progressed ==> done.len() == old_done.len() + 1,
                decreases n - i + (if progressed { 0int } else { 1int }),
            {
                if flags[i] {
                    proof {
                        assert(done.contains(i as int));
                    }
                    i += 1;
                    continue;
                }
                if self.deps_placed(&flags, i, Ghost(done)) {
                    proof {
                        assert(next_ready(ps, done, i as int));
                        let c = choose|c: int| next_ready(ps, done, c);
                        assert(next_ready(ps, done, c));
                        assert(c == i) by {
                            if c < i {
                                assert(is_ready(ps, done, c));
                            } else if i < c {
                                assert(is_ready(ps, done, i as int));
                            }
                        }
                    }
                    let ghost before = done;
                    flags.set(i, true);
                    order.push(&self.patches[i]);
                    proof {
                        done = done.push(i as int);
                        assert(forall|j: int| done.contains(j) == (before.contains(j) || j == i)) by {
                            assert forall|j: int| done.contains(j) == (before.contains(j) || j == i) by {
                                if before.contains(j) {
                                    let q = choose|q: int| 0 <= q < before.len() && before[q] == j;
                                    assert(done[q] == j);
                                }
                                assert(done[before.len() as int] == i);
                            }
                        }
                    }
                    progressed = true;
                } else {
                    i += 1;
                }
            }
            if !progressed {
                proof {
                    assert forall|c: int| !next_ready(ps, done, c) by {
                        if next_ready(ps, done, c) {
                            assert(is_ready(ps, done, c));
                        }
                    }
                }
                let mut stuck: Vec<PatchId> = Vec::new();
                let mut i: usize = 0;
                while i < n
                    invariant
                        n == self.patches@.len(),
                        ps == self@,
                        i <= n,
                        flags@.len() == n,
                        forall|j: int| 0 <= j < n ==> #[trigger] flags@[j] == done.contains(j),
                        ops::seen(stuck@) == left_out(ps, done, i as int),
                    decreases n - i,
                {
                    if !flags[i] {
                        let ghost before = stuck@;
                        stuck.push(self.patches[i].id.clone());
                        proof {
                            assert(ops::seen(stuck@) =~= ops::seen(before).push(ps[i as int].id));
                        }
                    }
                    i += 1;
                }
                return Err(TopoError::Cycle(stuck));
            }
        }
        Ok(order)
    }
}

// ---------------------------------------------------------------- laws of the order

/// `order` places distinct patches, each after everything it depends on, and each at a moment
/// when no patch that comes earlier in the input was ready.
pub open spec fn sound_prefix(ps: Seq<PatchView>, order: Seq<int>) -> bool {
    &&& distinct_indices(ps, order)
    &&& forall|a: int| 0 <= a < order.len() ==> next_ready(ps, order.take(a), #[trigger] order[a])
}

/// `order` is an arrangement of the whole set in which dependencies come first.
pub open spec fn respects(ps: Seq<PatchView>, order: Seq<int>) -> bool {
    &&& order.len() == ps.len()
    &&& distinct_indices(ps, order)
    &&& forall|a: int, k: int|
        0 <= a < order.len() && 0 <= k < ps[order[a]].depends_on.len() ==> placed(
            ps,
            order.take(a),
            #[trigger] ps[order[a]].depends_on[k],
        )
}

pub proof fn lemma_greedy_sound(ps: Seq<PatchView>, done: Seq<int>)
    requires
        sound_prefix(ps, done),
        done.len() <= ps.len(),
    ensures
        sound_prefix(ps, greedy(ps, done)),
        greedy(ps, done).len() <= ps.len(),
        greedy(ps, done).len() < ps.len() ==> forall|i: int| !#[trigger] next_ready(ps, greedy(ps, done), i),
    decreases ps.len() - done.len(),
{
    if done.len() < ps.len() && exists|i: int| next_ready(ps, done, i) {
        let c = choose|i: int| next_ready(ps, done, i);
        let more = done.push(c);
        assert(next_ready(ps, done, c));
        assert forall|a: int| 0 <= a < more.len() implies next_ready(ps, more.take(a), #[trigger] more[a]) by {
            if a < done.len() {
                assert(more.take(a) =~= done.take(a));
                assert(more[a] == done[a]);
            } else {
                assert(more.take(a) =~= done);
            }
        }
        lemma_greedy_sound(ps, more);
    }
}

/// An order that is found holds every patch once, each after the patches it depends on.
pub proof fn law_order_puts_dependencies_first(ps: Seq<PatchView>)
    ensures
        topo(ps) matches Ok(order) ==> respects(ps, order),
{
    if topo(ps) is Ok {
        let order = topo(ps)->Ok_0;
        assert(sound_prefix(ps, Seq::<int>::empty()));
        lemma_greedy_sound(ps, Seq::empty());
        assert forall|a: int, k: int|
            0 <= a < order.len() && 0 <= k < ps[order[a]].depends_on.len() implies placed(
            ps,
            order.take(a),
            #[trigger] ps[order[a]].depends_on[k],
        ) by {
            assert(next_ready(ps, order.take(a), order[a]));
        }
    }
}

/// The order is stable: a patch overtakes one that stands before it in the input only while
/// that one still waits for a dependency.
pub proof fn law_order_is_stable(ps: Seq<PatchView>, a: int, b: int)
    requires
        topo(ps) is Ok,
        0 <= a < b < ps.len(),
        topo(ps)->Ok_0[b] < topo(ps)->Ok_0[a],
    ensures
        !is_ready(ps, topo(ps)->Ok_0.take(a), topo(ps)->Ok_0[b]),
{
    let order = topo(ps)->Ok_0;
    assert(sound_prefix(ps, Seq::<int>::empty()));
    lemma_greedy_sound(ps, Seq::empty());
    assert(next_ready(ps, order.take(a), order[a]));
    assert(0 <= order[b]);
}

proof fn lemma_greedy_identity(ps: Seq<PatchView>, m: nat)
    requires
        m <= ps.len(),
        forall|i: int| 0 <= i < ps.len() ==> (#[trigger] ps[i]).depends_on.len() == 0,
    ensures
        greedy(ps, Seq::new(m, |i: int| i)) == Seq::new(ps.len(), |i: int| i),
    decreases ps.len() - m,
{
    let done = Seq::new(m, |i: int| i);
    if m < ps.len() {
        assert forall|h: int| 0 <= h < m implies !#[trigger] is_ready(ps, done, h) by {
            assert(done[h] == h);
        }
        assert(ps[m as int].depends_on.len() == 0);
        assert(next_ready(ps, done, m as int));
        let c = choose|i: int| next_ready(ps, done, i);
        assert(c == m) by {
            if c < m {
                assert(is_ready(ps, done, c));
            } else if m < c {
                assert(is_ready(ps, done, m as int));
            }
        }
        assert(done.push(c) =~= Seq::new(m + 1, |i: int| i));
        lemma_greedy_identity(ps, m + 1);
    }
}

/// Patches with different ids and no dependencies run in input order.
pub proof fn law_order_without_dependencies_is_input_order(ps: Seq<PatchView>)
    requires
        forall|i: int, j: int| 0 <= i < j < ps.len() ==> ps[i].id != ps[j].id,
        forall|i: int| 0 <= i < ps.len() ==> (#[trigger] ps[i]).depends_on.len() == 0,
    ensures
        topo(ps) == Ok::<Seq<int>, TopoErrorView>(Seq::new(ps.len(), |i: int| i)),
{
    assert(Seq::<int>::empty() =~= Seq::new(0, |i: int| i));
    lemma_greedy_identity(ps, 0);
}

/// The first place of `w` that is not among the placed patches.
proof fn lemma_first_unplaced(w: Seq<int>, done: Seq<int>, n: int) -> (a: int)
    requires
        0 <= n < w.len(),
        !done.contains(w[n]),
    ensures
        0 <= a <= n,
        !done.contains(w[a]),
        forall|b: int| 0 <= b < a ==> done.contains(#[trigger] w[b]),
    decreases n,
{
    if exists|b: int| 0 <= b < n && !done.contains(#[trigger] w[b]) {
        let b = choose|b: int| 0 <= b < n && !done.contains(#[trigger] w[b]);
        lemma_first_unplaced(w, done, b)
    } else {
        n
    }
}

proof fn lemma_least_ready(ps: Seq<PatchView>, done: Seq<int>, i: int)
    requires
        0 <= i < ps.len(),
        is_ready(ps, done, i),
    ensures
        exists|c: int| next_ready(ps, done, c),
    decreases i,
{
    if exists|h: int| 0 <= h < i && #[trigger] is_ready(ps, done, h) {
        let h = choose|h: int| 0 <= h < i && #[trigger] is_ready(ps, done, h);
        lemma_least_ready(ps, done, h);
    } else {
        assert(next_ready(ps, done, i));
    }
}

/// A short list of distinct indices below `n` misses one of them.
pub proof fn lemma_some_index_missing(done: Seq<int>, n: nat)
    requires
        done.no_duplicates(),
        done.len() < n,
    ensures
        exists|i: int| 0 <= i < n && !done.contains(i),
{
    if forall|i: int| 0 <= i < n ==> done.contains(i) {
        let all = vstd::set_lib::set_int_range(0, n as int);
        vstd::set_lib::lemma_int_range(0, n as int);
        assert(all.subset_of(done.to_set()));
        done.unique_seq_to_set();
        vstd::set_lib::lemma_len_subset(all, done.to_set());
    }
}

/// A set whose ids are distinct and whose dependencies all name members is ordered whenever any
/// arrangement with dependencies first exists: `Cycle` is reported only for real cycles.
pub proof fn law_cycle_only_when_no_order_exists(ps: Seq<PatchView>, w: Seq<int>)
    requires
        forall|i: int| !first_repeat(ps, i),
        forall|i: int, k: int| !first_dangling(ps, i, k),
        respects(ps, w),
    ensures
        topo(ps) is Ok,
{
    let done = greedy(ps, Seq::empty());
    assert(sound_prefix(ps, Seq::<int>::empty()));
    lemma_greedy_sound(ps, Seq::empty());
    if done.len() < ps.len() {
        lemma_some_index_missing(done, ps.len());
        let m = choose|i: int| 0 <= i < ps.len() && !done.contains(i);
        // `w` is a permutation, so it holds the missing index.
        assert(w.contains(m)) by {
            if !w.contains(m) {
                let more = w.push(m);
                assert(more.no_duplicates());
                w.unique_seq_to_set();
                more.unique_seq_to_set();
                let all = vstd::set_lib::set_int_range(0, ps.len() as int);
                vstd::set_lib::lemma_int_range(0, ps.len() as int);
                assert(more.to_set().subset_of(all));
                vstd::set_lib::lemma_len_subset(more.to_set(), all);
            }
        }
        let at = choose|a: int| 0 <= a < w.len() && w[a] == m;
        let a = lemma_first_unplaced(w, done, at);
        let i = w[a];
        assert forall|k: int| 0 <= k < ps[i].depends_on.len() implies placed(
            ps,
            done,
            #[trigger] ps[i].depends_on[k],
        ) by {
            let id = ps[w[a]].depends_on[k];
            assert(placed(ps, w.take(a), id));
            let b = choose|b: int| 0 <= b < w.take(a).len() && ps[#[trigger] w.take(a)[b]].id == id;
            assert(w.take(a)[b] == w[b]);
            assert(done.contains(w[b]));
            let q = choose|q: int| 0 <= q < done.len() && done[q] == w[b];
            assert(ps[done[q]].id == id);
        }
        assert(is_ready(ps, done, i));
        lemma_least_ready(ps, done, i);
        let c = choose|c: int| next_ready(ps, done, c);
        assert(!next_ready(ps, done, c));
    }
}

} // verus!
