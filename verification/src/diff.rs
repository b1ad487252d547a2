//! The difference of two texts, character by character.
use crate::ops;
use crate::text::chars_of;
use vstd::prelude::*;
use vstd::string::*;

verus! {

/// One run of a difference: the same in both texts, only in the old one, or only in the new one.
#[derive(Debug, PartialEq)]
pub enum DiffPart {
    Equal(String),
    Delete(String),
    Insert(String),
}

/// What a `DiffPart` holds.
#[verifier::ext_equal]
pub enum PartView {
    Equal(Seq<char>),
    Delete(Seq<char>),
    Insert(Seq<char>),
}

impl View for DiffPart {
    type V = PartView;

    open spec fn view(&self) -> PartView {
        match *self {
            DiffPart::Equal(s) => PartView::Equal(s@),
            DiffPart::Delete(s) => PartView::Delete(s@),
            DiffPart::Insert(s) => PartView::Insert(s@),
        }
    }
}

impl Clone for DiffPart {
    fn clone(&self) -> (r: Self)
        ensures
            r@ == self@,
    {
        match self {
            DiffPart::Equal(s) => DiffPart::Equal(s.clone()),
            DiffPart::Delete(s) => DiffPart::Delete(s.clone()),
            DiffPart::Insert(s) => DiffPart::Insert(s.clone()),
        }
    }
}

/// What happens to a character.
#[derive(Clone, Copy, PartialEq, Eq, Structural)]
pub enum Change {
    Same,
    Gone,
    New,
}

impl PartView {
    /// A run of this change.
    pub open spec fn of(change: Change, run: Seq<char>) -> PartView {
        match change {
            Change::Same => PartView::Equal(run),
            Change::Gone => PartView::Delete(run),
            Change::New => PartView::Insert(run),
        }
    }

    pub open spec fn change(self) -> Change {
        match self {
            PartView::Equal(_) => Change::Same,
            PartView::Delete(_) => Change::Gone,
            PartView::Insert(_) => Change::New,
        }
    }

    pub open spec fn run(self) -> Seq<char> {
        match self {
            PartView::Equal(s) => s,
            PartView::Delete(s) => s,
            PartView::Insert(s) => s,
        }
    }
}

/// The parts with one more character: it joins the last run if that has the same change.
pub open spec fn extended(parts: Seq<PartView>, change: Change, c: char) -> Seq<PartView> {
    if parts.len() > 0 && parts.last().change() == change {
        parts.drop_last().push(PartView::of(change, parts.last().run().push(c)))
    } else {
        parts.push(PartView::of(change, seq![c]))
    }
}

/// The length of the longest common subsequence of `a` from `i` on and `b` from `j` on.
pub open spec fn common(a: Seq<char>, b: Seq<char>, i: int, j: int) -> nat
    decreases a.len() - i, b.len() - j,
{
    if i < 0 || j < 0 || i >= a.len() || j >= b.len() {
        0
    } else if a[i] == b[j] {
        1 + common(a, b, i + 1, j + 1)
    } else if common(a, b, i + 1, j) >= common(a, b, i, j + 1) {
        common(a, b, i + 1, j)
    } else {
        common(a, b, i, j + 1)
    }
}

/// The difference from `i` in `a` and `j` in `b` on, after `parts`: equal characters are taken
/// together; else the side is skipped that leaves more in common, the old one first.
pub open spec fn trace(a: Seq<char>, b: Seq<char>, i: int, j: int, parts: Seq<PartView>) -> Seq<
    PartView,
>
    decreases a.len() - i + b.len() - j,
{
    if 0 <= i < a.len() && 0 <= j < b.len() {
        if a[i] == b[j] {
            trace(a, b, i + 1, j + 1, extended(parts, Change::Same, a[i]))
        } else if common(a, b, i + 1, j) >= common(a, b, i, j + 1) {
            trace(a, b, i + 1, j, extended(parts, Change::Gone, a[i]))
        } else {
            trace(a, b, i, j + 1, extended(parts, Change::New, b[j]))
        }
    } else if 0 <= i < a.len() && j == b.len() {
        trace(a, b, i + 1, j, extended(parts, Change::Gone, a[i]))
    } else if 0 <= j < b.len() && i == a.len() {
        trace(a, b, i, j + 1, extended(parts, Change::New, b[j]))
    } else {
        parts
    }
}

proof fn lemma_common_bound(a: Seq<char>, b: Seq<char>, i: int, j: int)
    requires
        0 <= i <= a.len(),
        0 <= j <= b.len(),
    ensures
        common(a, b, i, j) <= a.len() - i,
    decreases a.len() - i, b.len() - j,
{
    if i < a.len() && j < b.len() {
        if a[i] == b[j] {
            lemma_common_bound(a, b, i + 1, j + 1);
        } else {
            lemma_common_bound(a, b, i + 1, j);
            lemma_common_bound(a, b, i, j + 1);
        }
    }
}

fn part_of(change: Change, run: String) -> (r: DiffPart)
    ensures
        r@ == PartView::of(change, run@),
{
    match change {
        Change::Same => DiffPart::Equal(run),
        Change::Gone => DiffPart::Delete(run),
        Change::New => DiffPart::Insert(run),
    }
}

/// Adds one character to the parts.
fn extend(parts: &mut Vec<DiffPart>, change: Change, c: char)
    ensures
        ops::seen(final(parts)@) == extended(ops::seen(old(parts)@), change, c),
{
    let ghost views = ops::seen(parts@);
    let ghost before = parts@;
    let mut run = String::new();
    let n = parts.len();
    let mut joins = false;
    if n > 0 {
        proof {
            assert(views.last() == parts@[n - 1]@);
        }
        let last = match &parts[n - 1] {
            DiffPart::Equal(_) => Change::Same,
            DiffPart::Delete(_) => Change::Gone,
            DiffPart::Insert(_) => Change::New,
        };
        joins = last == change;
    }
    if joins {
        match parts.pop() {
            Some(DiffPart::Equal(s)) => {
                run = s;
            },
            Some(DiffPart::Delete(s)) => {
                run = s;
            },
            Some(DiffPart::Insert(s)) => {
                run = s;
            },
            None => {},
        }
    }
    let ghost start = run@;
    run.push(c);
    parts.push(part_of(change, run));
    proof {
        if joins {
            assert(ops::seen(parts@) =~= views.drop_last().push(PartView::of(change, start.push(c))));
        } else {
            assert(start.push(c) =~= seq![c]);
            assert(ops::seen(parts@) =~= views.push(PartView::of(change, seq![c])));
        }
    }
}

/// The lengths of the longest common subsequences of all ends of the two texts: row `n - i` holds
/// those from `i` on in `a`, place `m - j` in it the one from `j` on in `b`.
fn common_table(a: &Vec<char>, b: &Vec<char>) -> (rows: Vec<Vec<usize>>)
    ensures
        rows@.len() == a@.len() + 1,
        forall|k: int| 0 <= k <= a@.len() ==> (#[trigger] rows@[k])@.len() == b@.len() + 1,
        forall|k: int, l: int|
            0 <= k <= a@.len() && 0 <= l <= b@.len() ==> #[trigger] rows@[k]@[l] == common(
                a@,
                b@,
                a@.len() - k,
                b@.len() - l,
            ),
{
    let n = a.len();
    let m = b.len();
    let mut rows: Vec<Vec<usize>> = Vec::new();
    let mut first: Vec<usize> = Vec::new();
    first.push(0);
    let mut l: usize = 0;
    while l < m
        invariant
            l <= m,
            m == b@.len(),
            n == a@.len(),
            first@.len() == l + 1,
            forall|x: int| 0 <= x <= l ==> #[trigger] first@[x] == common(a@, b@, n as int, m - x),
        decreases m - l,
    {
        first.push(0);
        l += 1;
    }
    rows.push(first);
    let mut k: usize = 0;
    while k < n
        invariant
            k <= n,
            m == b@.len(),
            n == a@.len(),
            rows@.len() == k + 1,
            forall|x: int| 0 <= x <= k ==> (#[trigger] rows@[x])@.len() == m + 1,
            forall|x: int, y: int|
                0 <= x <= k && 0 <= y <= m ==> #[trigger] rows@[x]@[y] == common(
                    a@,
                    b@,
                    n - x,
                    m - y,
                ),
        decreases n - k,
    {
        let i = n - k - 1;
        let mut row: Vec<usize> = Vec::new();
        row.push(0);
        let mut y: usize = 0;
        while y < m
            invariant
                k < n,
                y <= m,
                i == n - k - 1,
                m == b@.len(),
                n == a@.len(),
                rows@.len() == k + 1,
                rows@[k as int]@.len() == m + 1,
                forall|z: int|
                    0 <= z <= m ==> #[trigger] rows@[k as int]@[z] == common(a@, b@, i + 1, m - z),
                row@.len() == y + 1,
                forall|z: int| 0 <= z <= y ==> #[trigger] row@[z] == common(a@, b@, i as int, m - z),
            decreases m - y,
        {
            let j = m - y - 1;
            proof {
                lemma_common_bound(a@, b@, i + 1, j + 1);
                assert(rows@[k as int]@[y as int] == common(a@, b@, i + 1, m - y));
                assert(rows@[k as int]@[y + 1] == common(a@, b@, i + 1, m - (y + 1)));
                assert(row@[y as int] == common(a@, b@, i as int, m - y));
            }
            let v: usize = if a[i] == b[j] {
                rows[k][y] + 1
            } else if rows[k][y + 1] >= row[y] {
                rows[k][y + 1]
            } else {
                row[y]
            };
            proof {
                assert(v == common(a@, b@, i as int, j as int));
            }
            row.push(v);
            y += 1;
        }
        rows.push(row);
        k += 1;
    }
    rows
}

/// The difference from `old` to `new`: runs of characters that are the same, gone or new, in
/// order. As many characters as possible are the same.
pub fn char_diff(old: &str, new: &str) -> (r: Vec<DiffPart>)
    ensures
        ops::seen(r@) == trace(old@, new@, 0, 0, Seq::empty()),
{
    let a = chars_of(old);
    let b = chars_of(new);
    let n = a.len();
    let m = b.len();
    let rows = common_table(&a, &b);
    let mut parts: Vec<DiffPart> = Vec::new();
    proof {
        assert(ops::seen(parts@) =~= Seq::empty());
    }
    let mut i: usize = 0;
    let mut j: usize = 0;
    while i < n && j < m
        invariant
            i <= n,
            j <= m,
            n == a@.len(),
            m == b@.len(),
            a@ == old@,
            b@ == new@,
            rows@.len() == n + 1,
            forall|k: int| 0 <= k <= n ==> (#[trigger] rows@[k])@.len() == m + 1,
            forall|k: int, l: int|
                0 <= k <= n && 0 <= l <= m ==> #[trigger] rows@[k]@[l] == common(
                    a@,
                    b@,
                    n - k,
                    m - l,
                ),
            trace(old@, new@, 0, 0, Seq::empty()) == trace(
                old@,
                new@,
                i as int,
                j as int,
                ops::seen(parts@),
            ),
        decreases n - i + m - j,
    {
        if a[i] == b[j] {
            extend(&mut parts, Change::Same, a[i]);
            i += 1;
            j += 1;
        } else {
            let skip_old = &rows[n - i - 1];
            let skip_new = &rows[n - i];
            proof {
                assert(rows@[n - i - 1]@[m - j] == common(a@, b@, i + 1, j as int));
                assert(rows@[n - i]@[m - j - 1] == common(a@, b@, i as int, j + 1));
            }
            if skip_old[m - j] >= skip_new[m - j - 1] {
                extend(&mut parts, Change::Gone, a[i]);
                i += 1;
            } else {
                extend(&mut parts, Change::New, b[j]);
                j += 1;
            }
        }
    }
    while i < n
        invariant
            i <= n,
            j <= m,
            i == n || j == m,
            n == a@.len(),
            m == b@.len(),
            a@ == old@,
            b@ == new@,
            trace(old@, new@, 0, 0, Seq::empty()) == trace(
                old@,
                new@,
                i as int,
                j as int,
                ops::seen(parts@),
            ),
        decreases n - i,
    {
        extend(&mut parts, Change::Gone, a[i]);
        i += 1;
    }
    while j < m
        invariant
            i == n,
            j <= m,
            n == a@.len(),
            m == b@.len(),
            a@ == old@,
            b@ == new@,
            trace(old@, new@, 0, 0, Seq::empty()) == trace(
                old@,
                new@,
                i as int,
                j as int,
                ops::seen(parts@),
            ),
        decreases m - j,
    {
        extend(&mut parts, Change::New, b[j]);
        j += 1;
    }
    parts
}

// ---------------------------------------------------------------- laws

/// The old text: what is the same and what is gone.
pub open spec fn old_side(parts: Seq<PartView>) -> Seq<char>
    decreases parts.len(),
{
    if parts.len() == 0 {
        Seq::empty()
    } else if parts.last() is Insert {
        old_side(parts.drop_last())
    } else {
        old_side(parts.drop_last()) + parts.last().run()
    }
}

/// The new text: what is the same and what is new.
pub open spec fn new_side(parts: Seq<PartView>) -> Seq<char>
    decreases parts.len(),
{
    if parts.len() == 0 {
        Seq::empty()
    } else if parts.last() is Delete {
        new_side(parts.drop_last())
    } else {
        new_side(parts.drop_last()) + parts.last().run()
    }
}

/// How many characters are the same.
pub open spec fn same_count(parts: Seq<PartView>) -> nat
    decreases parts.len(),
{
    if parts.len() == 0 {
        0
    } else if parts.last() is Equal {
        same_count(parts.drop_last()) + parts.last().run().len()
    } else {
        same_count(parts.drop_last())
    }
}

/// No run is empty, and neighbours differ in their change.
pub open spec fn merged(parts: Seq<PartView>) -> bool {
    &&& forall|i: int| 0 <= i < parts.len() ==> (#[trigger] parts[i]).run().len() > 0
    &&& forall|i: int, j: int|
        0 <= i && j == i + 1 && j < parts.len() ==> (#[trigger] parts[i]).change() != (
        #[trigger] parts[j]).change()
}

proof fn lemma_extended(parts: Seq<PartView>, change: Change, c: char)
    ensures
        ({
            let more = extended(parts, change, c);
            &&& old_side(more) == if change == Change::New {
                old_side(parts)
            } else {
                old_side(parts).push(c)
            }
            &&& new_side(more) == if change == Change::Gone {
                new_side(parts)
            } else {
                new_side(parts).push(c)
            }
            &&& same_count(more) == same_count(parts) + if change == Change::Same {
                1nat
            } else {
                0nat
            }
            &&& merged(parts) ==> merged(more)
        }),
{
    let more = extended(parts, change, c);
    if parts.len() > 0 && parts.last().change() == change {
        let run = parts.last().run();
        assert(more.drop_last() =~= parts.drop_last());
        assert(old_side(parts.drop_last()) + run.push(c) =~= (old_side(parts.drop_last())
            + run).push(c));
        assert(new_side(parts.drop_last()) + run.push(c) =~= (new_side(parts.drop_last())
            + run).push(c));
        if merged(parts) {
            assert forall|i: int, j: int|
                0 <= i && j == i + 1 && j < more.len() implies (#[trigger] more[i]).change() != (
            #[trigger] more[j]).change() by {
                assert(more[i].change() == parts[i].change());
                assert(more[j].change() == parts[j].change());
            }
        }
    } else {
        assert(more.drop_last() =~= parts);
        assert(old_side(parts) + seq![c] =~= old_side(parts).push(c));
        assert(new_side(parts) + seq![c] =~= new_side(parts).push(c));
        if merged(parts) {
            assert forall|i: int, j: int|
                0 <= i && j == i + 1 && j < more.len() implies (#[trigger] more[i]).change() != (
            #[trigger] more[j]).change() by {
                assert(more[i] == parts[i]);
                if j < parts.len() {
                    assert(more[j] == parts[j]);
                } else {
                    assert(parts[i] == parts.last());
                }
            }
        }
    }
}

proof fn lemma_trace(a: Seq<char>, b: Seq<char>, i: int, j: int, parts: Seq<PartView>)
    requires
        0 <= i <= a.len(),
        0 <= j <= b.len(),
    ensures
        ({
            let out = trace(a, b, i, j, parts);
            &&& old_side(out) == old_side(parts) + a.skip(i)
            &&& new_side(out) == new_side(parts) + b.skip(j)
            &&& same_count(out) == same_count(parts) + common(a, b, i, j)
            &&& merged(parts) ==> merged(out)
        }),
    decreases a.len() - i + b.len() - j,
{
    if i < a.len() {
        assert(old_side(parts) + a.skip(i) =~= old_side(parts).push(a[i]) + a.skip(i + 1));
    } else {
        assert(old_side(parts) + a.skip(i) =~= old_side(parts));
    }
    if j < b.len() {
        assert(new_side(parts) + b.skip(j) =~= new_side(parts).push(b[j]) + b.skip(j + 1));
    } else {
        assert(new_side(parts) + b.skip(j) =~= new_side(parts));
    }
    if i < a.len() && j < b.len() && a[i] == b[j] {
        lemma_extended(parts, Change::Same, a[i]);
        lemma_trace(a, b, i + 1, j + 1, extended(parts, Change::Same, a[i]));
    } else if i < a.len() && (j == b.len() || common(a, b, i + 1, j) >= common(a, b, i, j + 1)) {
        lemma_extended(parts, Change::Gone, a[i]);
        lemma_trace(a, b, i + 1, j, extended(parts, Change::Gone, a[i]));
    } else if j < b.len() {
        lemma_extended(parts, Change::New, b[j]);
        lemma_trace(a, b, i, j + 1, extended(parts, Change::New, b[j]));
    }
}

/// Both texts can be read off a difference.
pub proof fn law_diff_rebuilds_both_texts(old: Seq<char>, new: Seq<char>)
    ensures
        old_side(trace(old, new, 0, 0, Seq::empty())) == old,
        new_side(trace(old, new, 0, 0, Seq::empty())) == new,
{
    lemma_trace(old, new, 0, 0, Seq::empty());
    assert(Seq::<char>::empty() + old.skip(0) =~= old);
    assert(Seq::<char>::empty() + new.skip(0) =~= new);
}

/// Neighbouring characters with the same change stand in one run.
pub proof fn law_diff_merges_runs(old: Seq<char>, new: Seq<char>)
    ensures
        merged(trace(old, new, 0, 0, Seq::empty())),
{
    lemma_trace(old, new, 0, 0, Seq::empty());
}

/// `p` and `q` pick a common subsequence of `a` from `i` on and `b` from `j` on.
pub open spec fn picks_common(
    a: Seq<char>,
    b: Seq<char>,
    i: int,
    j: int,
    p: Seq<int>,
    q: Seq<int>,
) -> bool {
    &&& p.len() == q.len()
    &&& forall|k: int| 0 <= k < p.len() ==> i <= #[trigger] p[k] < a.len()
    &&& forall|k: int| 0 <= k < q.len() ==> j <= #[trigger] q[k] < b.len()
    &&& forall|k: int, l: int| 0 <= k < l < p.len() ==> #[trigger] p[k] < #[trigger] p[l]
    &&& forall|k: int, l: int| 0 <= k < l < q.len() ==> #[trigger] q[k] < #[trigger] q[l]
    &&& forall|k: int| 0 <= k < p.len() ==> a[#[trigger] p[k]] == b[q[k]]
}

proof fn lemma_common_is_longest(
    a: Seq<char>,
    b: Seq<char>,
    i: int,
    j: int,
    p: Seq<int>,
    q: Seq<int>,
)
    requires
        0 <= i <= a.len(),
        0 <= j <= b.len(),
        picks_common(a, b, i, j, p, q),
    ensures
        p.len() <= common(a, b, i, j),
    decreases a.len() - i, b.len() - j,
{
    if p.len() > 0 {
        assert(i <= p[0] < a.len());
        assert(j <= q[0] < b.len());
        if a[i] == b[j] {
            let p1 = p.skip(1);
            let q1 = q.skip(1);
            assert forall|k: int| 0 <= k < p1.len() implies i + 1 <= #[trigger] p1[k] < a.len() by {
                assert(p1[k] == p[k + 1]);
                assert(p[0] < p[k + 1]);
            }
            assert forall|k: int| 0 <= k < q1.len() implies j + 1 <= #[trigger] q1[k] < b.len() by {
                assert(q1[k] == q[k + 1]);
                assert(q[0] < q[k + 1]);
            }
            assert forall|k: int| 0 <= k < p1.len() implies a[#[trigger] p1[k]] == b[q1[k]] by {
                assert(a[p[k + 1]] == b[q[k + 1]]);
            }
            lemma_common_is_longest(a, b, i + 1, j + 1, p1, q1);
        } else if p[0] > i {
            assert forall|k: int| 0 <= k < p.len() implies i + 1 <= #[trigger] p[k] < a.len() by {
                if k > 0 {
                    assert(p[0] < p[k]);
                }
            }
            lemma_common_is_longest(a, b, i + 1, j, p, q);
        } else {
            assert(a[p[0]] == b[q[0]]);
            assert forall|k: int| 0 <= k < q.len() implies j + 1 <= #[trigger] q[k] < b.len() by {
                if k > 0 {
                    assert(q[0] < q[k]);
                }
            }
            lemma_common_is_longest(a, b, i, j + 1, p, q);
        }
    }
}

/// No difference keeps more: every common subsequence of the two texts is at most as long as the
/// characters that the difference shows as the same.
pub proof fn law_diff_keeps_the_most(old: Seq<char>, new: Seq<char>, p: Seq<int>, q: Seq<int>)
    requires
        picks_common(old, new, 0, 0, p, q),
    ensures
        p.len() <= same_count(trace(old, new, 0, 0, Seq::empty())),
{
    lemma_trace(old, new, 0, 0, Seq::empty());
    lemma_common_is_longest(old, new, 0, 0, p, q);
}

proof fn lemma_trace_same(s: Seq<char>, i: int, parts: Seq<PartView>)
    requires
        0 < i <= s.len(),
        parts == seq![PartView::Equal(s.take(i))],
    ensures
        trace(s, s, i, i, parts) == seq![PartView::Equal(s)],
    decreases s.len() - i,
{
    if i < s.len() {
        let more = extended(parts, Change::Same, s[i]);
        assert(s.take(i).push(s[i]) =~= s.take(i + 1));
        assert(more =~= seq![PartView::Equal(s.take(i + 1))]);
        lemma_trace_same(s, i + 1, more);
    } else {
        assert(s.take(i) =~= s);
    }
}

/// A text does not differ from itself.
pub proof fn law_diff_of_equal_texts(s: Seq<char>)
    ensures
        trace(s, s, 0, 0, Seq::empty()) == if s.len() == 0 {
            Seq::<PartView>::empty()
        } else {
            seq![PartView::Equal(s)]
        },
{
    if s.len() > 0 {
        let more = extended(Seq::empty(), Change::Same, s[0]);
        assert(seq![s[0]] =~= s.take(1));
        assert(more =~= seq![PartView::Equal(s.take(1))]);
        lemma_trace_same(s, 1, more);
    }
}

/// With one character less there is at most one less in common.
proof fn lemma_common_drop(a: Seq<char>, b: Seq<char>, i: int, j: int)
    requires
        0 <= i,
        0 <= j,
    ensures
        common(a, b, i, j) <= 1 + common(a, b, i + 1, j),
    decreases a.len() - i + b.len() - j,
{
    if i < a.len() && j < b.len() {
        lemma_common_less(a, b, i + 1, j);
        if a[i] != b[j] {
            lemma_common_drop(a, b, i, j + 1);
        }
    }
}

/// With fewer characters there is no more in common.
proof fn lemma_common_less(a: Seq<char>, b: Seq<char>, i: int, j: int)
    requires
        0 <= i,
        0 <= j,
    ensures
        common(a, b, i, j + 1) <= common(a, b, i, j),
    decreases a.len() - i + b.len() - j,
{
    if i < a.len() && j < b.len() && a[i] == b[j] {
        lemma_common_drop(a, b, i, j + 1);
    }
}

/// No insertion stands directly before a deletion.
pub open spec fn deletions_first(parts: Seq<PartView>) -> bool {
    forall|k: int|
        0 <= k < parts.len() - 1 && #[trigger] parts[k] is Insert ==> !(parts[k + 1] is Delete)
}

proof fn lemma_trace_deletes_first(
    a: Seq<char>,
    b: Seq<char>,
    i: int,
    j: int,
    parts: Seq<PartView>,
)
    requires
        0 <= i <= a.len(),
        0 <= j <= b.len(),
        deletions_first(parts),
        parts.len() > 0 && parts.last() is Insert && i < a.len() ==> j > 0 && common(a, b, i, j)
            > common(a, b, i + 1, j - 1),
    ensures
        deletions_first(trace(a, b, i, j, parts)),
    decreases a.len() - i + b.len() - j,
{
    if i < a.len() && j < b.len() && a[i] == b[j] {
        lemma_trace_deletes_first(a, b, i + 1, j + 1, extended(parts, Change::Same, a[i]));
    } else if i < a.len() && (j == b.len() || common(a, b, i + 1, j) >= common(a, b, i, j + 1)) {
        if parts.len() > 0 && parts.last() is Insert {
            lemma_common_less(a, b, i + 1, j - 1);
        }
        lemma_trace_deletes_first(a, b, i + 1, j, extended(parts, Change::Gone, a[i]));
    } else if j < b.len() {
        lemma_trace_deletes_first(a, b, i, j + 1, extended(parts, Change::New, b[j]));
    }
}

/// In a stretch that changed, what is deleted stands before what is inserted.
pub proof fn law_diff_deletes_before_it_inserts(old: Seq<char>, new: Seq<char>)
    ensures
        deletions_first(trace(old, new, 0, 0, Seq::empty())),
{
    lemma_trace_deletes_first(old, new, 0, 0, Seq::empty());
}

} // verus!
