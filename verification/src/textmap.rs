//! A map with text keys that remembers the order in which its keys came in.
use vstd::prelude::*;
use vstd::string::*;

verus! {

/// What a `TextMap` holds: the pairs, and the keys in the order in which they came in.
#[verifier::ext_equal]
pub struct Dict<V> {
    pub map: Map<Seq<char>, V>,
    pub order: Seq<Seq<char>>,
}

impl<V> Dict<V> {
    pub open spec fn empty() -> Self {
        Dict { map: Map::empty(), order: Seq::empty() }
    }

    #[verifier::inline]
    pub open spec fn has(self, key: Seq<char>) -> bool {
        self.map.dom().contains(key)
    }

    /// Sets the value of a key. A key that is there keeps its place in the order.
    pub open spec fn put(self, key: Seq<char>, value: V) -> Self {
        Dict {
            map: self.map.insert(key, value),
            order: if self.has(key) {
                self.order
            } else {
                self.order.push(key)
            },
        }
    }

    /// Takes a set of keys out.
    pub open spec fn without(self, keys: Set<Seq<char>>) -> Self {
        Dict {
            map: self.map.remove_keys(keys),
            order: self.order.filter(|k: Seq<char>| !keys.contains(k)),
        }
    }

    /// The order lists exactly the keys that the map has.
    pub open spec fn tidy(self) -> bool {
        forall|k: Seq<char>| #[trigger] self.order.contains(k) <==> self.has(k)
    }
}

/// Taking out one set of keys and another one is taking out both.
pub proof fn lemma_without_twice<V>(d: Dict<V>, a: Set<Seq<char>>, b: Set<Seq<char>>)
    ensures
        d.without(a).without(b) == d.without(a.union(b)),
{
    lemma_filter_twice(d.order, a, b);
    assert(d.without(a).without(b).map =~= d.without(a.union(b)).map);
}

proof fn lemma_filter_twice(s: Seq<Seq<char>>, a: Set<Seq<char>>, b: Set<Seq<char>>)
    ensures
        s.filter(|k: Seq<char>| !a.contains(k)).filter(|k: Seq<char>| !b.contains(k)) == s.filter(
            |k: Seq<char>| !a.union(b).contains(k),
        ),
    decreases s.len(),
{
    let p = |k: Seq<char>| !a.contains(k);
    let q = |k: Seq<char>| !b.contains(k);
    let r = |k: Seq<char>| !a.union(b).contains(k);
    reveal(Seq::filter);
    if s.len() > 0 {
        lemma_filter_twice(s.drop_last(), a, b);
        let sub = s.drop_last().filter(p);
        if p(s.last()) {
            assert(sub.push(s.last()).drop_last() =~= sub);
        }
    }
}

/// `put` and `without` keep order and map in step.
pub proof fn lemma_tidy<V>(d: Dict<V>, key: Seq<char>, value: V, keys: Set<Seq<char>>)
    requires
        d.tidy(),
    ensures
        d.put(key, value).tidy(),
        d.without(keys).tidy(),
{
    let p = d.put(key, value);
    assert forall|k: Seq<char>| #[trigger] p.order.contains(k) <==> p.has(k) by {
        assert(d.order.contains(k) <==> d.has(k));
        if !d.has(key) {
            if k == key {
                assert(p.order[p.order.len() - 1] == k);
            } else {
                if d.order.contains(k) {
                    let i = choose|i: int| 0 <= i < d.order.len() && d.order[i] == k;
                    assert(p.order[i] == k);
                }
                if p.order.contains(k) {
                    let i = choose|i: int| 0 <= i < p.order.len() && p.order[i] == k;
                    assert(d.order[i] == k);
                }
            }
        }
    }
    let w = d.without(keys);
    let pred = |k: Seq<char>| !keys.contains(k);
    assert forall|k: Seq<char>| #[trigger] w.order.contains(k) <==> w.has(k) by {
        assert(d.order.contains(k) <==> d.has(k));
        lemma_filter_keeps(d.order, pred, k);
    }
}

proof fn lemma_filter_keeps(s: Seq<Seq<char>>, pred: spec_fn(Seq<char>) -> bool, k: Seq<char>)
    ensures
        s.filter(pred).contains(k) <==> s.contains(k) && pred(k),
    decreases s.len(),
{
    reveal(Seq::filter);
    if s.len() > 0 {
        let rest = s.drop_last();
        lemma_filter_keeps(rest, pred, k);
        assert(s.contains(k) <==> rest.contains(k) || s.last() == k) by {
            if s.contains(k) {
                let i = choose|i: int| 0 <= i < s.len() && s[i] == k;
                if i < rest.len() {
                    assert(rest[i] == k);
                }
            }
            if rest.contains(k) {
                let i = choose|i: int| 0 <= i < rest.len() && rest[i] == k;
                assert(s[i] == k);
            }
            if s.last() == k {
                assert(s[s.len() - 1] == k);
            }
        }
        let sub = rest.filter(pred);
        if pred(s.last()) {
            let out = sub.push(s.last());
            if out.contains(k) {
                let i = choose|i: int| 0 <= i < out.len() && out[i] == k;
                if i < sub.len() {
                    assert(sub[i] == k);
                }
            }
            if sub.contains(k) {
                let i = choose|i: int| 0 <= i < sub.len() && sub[i] == k;
                assert(out[i] == k);
            }
            if s.last() == k {
                assert(out[out.len() - 1] == k);
            }
        }
    }
}

/// A map from text to values. A key is looked up by comparing texts.
pub struct TextMap<V> {
    pub entries: Vec<(String, V)>,
}

/// Entry number `i` is the first one with this key.
pub open spec fn first_entry<V>(entries: Seq<(String, V)>, key: Seq<char>, i: int) -> bool {
    &&& 0 <= i < entries.len()
    &&& entries[i].0@ == key
    &&& forall|j: int| 0 <= j < i ==> (#[trigger] entries[j]).0@ != key
}

/// What a list of entries stands for.
pub open spec fn dict_of<V: View>(entries: Seq<(String, V)>) -> Dict<V::V> {
    Dict {
        map: Map::new(
            |key: Seq<char>| exists|i: int| first_entry(entries, key, i),
            |key: Seq<char>| entries[choose|i: int| first_entry(entries, key, i)].1@,
        ),
        order: Seq::new(entries.len(), |i: int| entries[i].0@),
    }
}

proof fn lemma_entry<V: View>(entries: Seq<(String, V)>, key: Seq<char>, i: int)
    requires
        first_entry(entries, key, i),
    ensures
        dict_of(entries).has(key),
        dict_of(entries).map[key] == entries[i].1@,
{
    let c = choose|c: int| first_entry(entries, key, c);
    assert(first_entry(entries, key, c));
    if c < i {
        assert(entries[c].0@ != key);
    } else if i < c {
        assert(entries[i].0@ != key);
    }
}

proof fn lemma_some_entry<V: View>(entries: Seq<(String, V)>, key: Seq<char>, n: int)
    requires
        0 <= n <= entries.len(),
        exists|i: int| 0 <= i < n && (#[trigger] entries[i]).0@ == key,
    ensures
        exists|i: int| first_entry(entries, key, i) && i < n,
    decreases n,
{
    if exists|i: int| 0 <= i < n - 1 && (#[trigger] entries[i]).0@ == key {
        lemma_some_entry(entries, key, n - 1);
    } else {
        assert(first_entry(entries, key, n - 1));
    }
}

/// A list of entries is in step with its own order of keys.
pub proof fn lemma_dict_tidy<V: View>(entries: Seq<(String, V)>)
    ensures
        dict_of(entries).tidy(),
{
    let d = dict_of(entries);
    assert forall|k: Seq<char>| #[trigger] d.order.contains(k) <==> d.has(k) by {
        if d.order.contains(k) {
            let i = choose|i: int| 0 <= i < d.order.len() && d.order[i] == k;
            assert(entries[i].0@ == k);
            lemma_some_entry(entries, k, entries.len() as int);
        }
        if d.has(k) {
            let i = choose|i: int| first_entry(entries, k, i);
            assert(d.order[i] == k);
        }
    }
}

impl<V: View> View for TextMap<V> {
    type V = Dict<V::V>;

    open spec fn view(&self) -> Dict<V::V> {
        dict_of(self.entries@)
    }
}

impl<V: View> TextMap<V> {
    pub fn new() -> (r: Self)
        ensures
            r@ == Dict::<V::V>::empty(),
    {
        let r = TextMap { entries: Vec::new() };
        proof {
            assert(r@.map =~= Map::empty());
            assert(r@.order =~= Seq::empty());
        }
        r
    }

    /// The number of keys that came in.
    pub fn len(&self) -> (r: usize)
        ensures
            r == self@.order.len(),
    {
        self.entries.len()
    }

    pub fn is_empty(&self) -> (r: bool)
        ensures
            r == (self@.order.len() == 0),
    {
        self.entries.len() == 0
    }

    /// The place of a key.
    fn find(&self, key: &str) -> (r: Option<usize>)
        ensures
            match r {
                Some(i) => first_entry(self.entries@, key@, i as int) && self@.has(key@)
                    && self@.map[key@] == self.entries@[i as int].1@,
                None => !self@.has(key@) && forall|i: int|
                    0 <= i < self.entries@.len() ==> (#[trigger] self.entries@[i]).0@ != key@,
            },
    {
        let mut i: usize = 0;
        while i < self.entries.len()
            invariant
                i <= self.entries@.len(),
                forall|j: int| 0 <= j < i ==> (#[trigger] self.entries@[j]).0@ != key@,
            decreases self.entries@.len() - i,
        {
            if crate::text::same_text(self.entries[i].0.as_str(), key) {
                proof {
                    lemma_entry(self.entries@, key@, i as int);
                }
                return Some(i);
            }
            i += 1;
        }
        None
    }

    pub fn contains_key(&self, key: &str) -> (r: bool)
        ensures
            r == self@.has(key@),
    {
        self.find(key).is_some()
    }

    pub fn get(&self, key: &str) -> (r: Option<&V>)
        ensures
            match r {
                Some(v) => self@.has(key@) && v@ == self@.map[key@],
                None => !self@.has(key@),
            },
    {
        match self.find(key) {
            Some(i) => Some(&self.entries[i].1),
            None => None,
        }
    }

    /// Sets the value of a key.
    pub fn insert(&mut self, key: String, value: V)
        ensures
            final(self)@ == old(self)@.put(key@, value@),
    {
        let ghost before = self.entries@;
        let ghost d = self@;
        match self.find(key.as_str()) {
            Some(i) => {
                self.entries[i].1 = value;
                proof {
                    let after = self.entries@;
                    lemma_same_keys(before, after, key@, i as int);
                    assert(self@.order =~= d.order);
                }
            },
            None => {
                let ghost e = (key, value);
                self.entries.push((key, value));
                proof {
                    lemma_push_entry(before, e);
                }
            },
        }
    }

    /// A place to change the value of a key in.
    pub fn get_mut(&mut self, key: &str) -> (r: Option<&mut V>)
        ensures
            match r {
                Some(v) => old(self)@.has(key@) && (*v)@ == old(self)@.map[key@] && final(self)@
                    == old(self)@.put(key@, (*final(v))@),
                None => !old(self)@.has(key@) && final(self)@ == old(self)@,
            },
    {
        match self.find(key) {
            Some(i) => {
                let ghost before = self.entries@;
                let r = &mut self.entries[i].1;
                proof {
                    let after = before.update(i as int, (before[i as int].0, *final(r)));
                    lemma_same_keys(before, after, key@, i as int);
                    assert(dict_of(after).order =~= dict_of(before).order);
                }
                Some(r)
            },
            None => None,
        }
    }

    /// Takes a key out, with all that is stored under it.
    pub fn remove(&mut self, key: &str)
        ensures
            final(self)@ == old(self)@.without(set![key@]),
    {
        let ghost all = self.entries@;
        let ghost mut seen: int = 0;
        proof {
            reveal(Seq::filter);
            assert(all.take(0) =~= Seq::empty());
            assert(dict_of(all.take(0)).order =~= Seq::empty());
            assert(dict_of(all.take(0)).without(set![key@]) =~= dict_of(all.take(0)));
        }
        let mut i: usize = 0;
        while i < self.entries.len()
            invariant
                i <= self.entries@.len(),
                0 <= seen <= all.len(),
                self.entries@.len() - i == all.len() - seen,
                self.entries@.skip(i as int) == all.skip(seen),
                dict_of(self.entries@.take(i as int)) == dict_of(all.take(seen)).without(set![key@]),
            decreases self.entries@.len() - i,
        {
            let ghost before = self.entries@;
            let ghost e = before[i as int];
            proof {
                assert(e == before.skip(i as int)[0]);
                assert(e == all.skip(seen)[0]);
                assert(all.take(seen + 1) =~= all.take(seen).push(e));
                lemma_push_entry(all.take(seen), e);
                assert(dict_of(all.take(seen)).order.push(e.0@).drop_last() =~= dict_of(
                    all.take(seen),
                ).order);
                assert(before.skip(i + 1) =~= before.skip(i as int).skip(1));
                assert(all.skip(seen + 1) =~= all.skip(seen).skip(1));
                reveal(Seq::filter);
            }
            if crate::text::same_text(self.entries[i].0.as_str(), key) {
                self.entries.remove(i);
                proof {
                    assert(self.entries@.skip(i as int) =~= before.skip(i + 1));
                    assert(self.entries@.take(i as int) =~= before.take(i as int));
                    assert(dict_of(before.take(i as int)).map =~= dict_of(
                        all.take(seen + 1),
                    ).without(set![key@]).map);
                }
            } else {
                proof {
                    assert(before.take(i + 1) =~= before.take(i as int).push(e));
                    lemma_push_entry(before.take(i as int), e);
                    assert(dict_of(before.take(i + 1)).map =~= dict_of(all.take(seen + 1)).without(
                        set![key@],
                    ).map);
                    assert(dict_of(before.take(i + 1)).order =~= dict_of(
                        all.take(seen + 1),
                    ).without(set![key@]).order);
                }
                i += 1;
            }
            proof {
                seen = seen + 1;
            }
        }
        proof {
            assert(self.entries@.take(i as int) =~= self.entries@);
            assert(all.take(seen) =~= all);
        }
    }
}

/// What one more entry at the end does.
proof fn lemma_push_entry<V: View>(entries: Seq<(String, V)>, e: (String, V))
    ensures
        dict_of(entries.push(e)).order == dict_of(entries).order.push(e.0@),
        dict_of(entries.push(e)).map == if dict_of(entries).has(e.0@) {
            dict_of(entries).map
        } else {
            dict_of(entries).map.insert(e.0@, e.1@)
        },
{
    let after = entries.push(e);
    let d = dict_of(entries);
    let n = entries.len() as int;
    assert(dict_of(after).order =~= d.order.push(e.0@));
    assert forall|k: Seq<char>| #[trigger] d.map.dom().contains(k) implies dict_of(after).has(k)
        && dict_of(after).map[k] == d.map[k] by {
        let i = choose|i: int| first_entry(entries, k, i);
        assert(first_entry(after, k, i));
        lemma_entry(after, k, i);
    }
    assert forall|k: Seq<char>| #[trigger] dict_of(after).map.dom().contains(k) && k
        != e.0@ implies d.has(k) by {
        let i = choose|i: int| first_entry(after, k, i);
        assert(i < n);
        assert(first_entry(entries, k, i)) by {
            assert forall|j: int| 0 <= j < i implies (#[trigger] entries[j]).0@ != k by {
                assert(after[j].0@ != k);
            }
        }
    }
    if !d.has(e.0@) {
        assert(first_entry(after, e.0@, n)) by {
            assert forall|j: int| 0 <= j < n implies (#[trigger] after[j]).0@ != e.0@ by {
                if after[j].0@ == e.0@ {
                    assert(entries[j].0@ == e.0@);
                    lemma_some_entry(entries, e.0@, n);
                }
            }
        }
        lemma_entry(after, e.0@, n);
        assert(dict_of(after).map =~= d.map.insert(e.0@, e.1@));
    } else {
        assert(dict_of(after).map =~= d.map);
    }
}

/// What changing the value of one entry does.
proof fn lemma_same_keys<V: View>(
    before: Seq<(String, V)>,
    after: Seq<(String, V)>,
    key: Seq<char>,
    i: int,
)
    requires
        first_entry(before, key, i),
        after.len() == before.len(),
        forall|j: int| 0 <= j < after.len() ==> (#[trigger] after[j]).0@ == before[j].0@,
        forall|j: int| 0 <= j < after.len() && j != i ==> #[trigger] after[j] == before[j],
    ensures
        dict_of(after).map == dict_of(before).map.insert(key, after[i].1@),
        dict_of(before).has(key),
{
    lemma_entry(before, key, i);
    assert(first_entry(after, key, i));
    lemma_entry(after, key, i);
    assert forall|k: Seq<char>|
        #![trigger dict_of(after).map.dom().contains(k)]
        #![trigger dict_of(before).map.dom().contains(k)]
        k != key implies (dict_of(after).has(k) <==> dict_of(before).has(k))
        && (dict_of(before).has(k) ==> dict_of(after).map[k] == dict_of(before).map[k]) by {
        if dict_of(before).has(k) {
            let c = choose|c: int| first_entry(before, k, c);
            assert(first_entry(after, k, c)) by {
                assert forall|j: int| 0 <= j < c implies (#[trigger] after[j]).0@ != k by {
                    assert(before[j].0@ != k);
                }
            }
            lemma_entry(after, k, c);
            lemma_entry(before, k, c);
        }
        if dict_of(after).has(k) {
            let c = choose|c: int| first_entry(after, k, c);
            assert(first_entry(before, k, c)) by {
                assert forall|j: int| 0 <= j < c implies (#[trigger] before[j]).0@ != k by {
                    assert(after[j].0@ != k);
                }
            }
        }
    }
    assert(dict_of(after).map =~= dict_of(before).map.insert(key, after[i].1@));
}

} // verus!
