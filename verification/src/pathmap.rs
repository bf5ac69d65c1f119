//! A map keyed by path, kept as a list in path order.
//!
//! Looking a path up is a binary search; walking the map yields the paths in
//! the order in which a tree lists them.

use crate::order::{
    compare, lemma_lex_irreflexive, lemma_lex_total, lemma_lex_transitive, path_lt, Sign,
};
use crate::paths::{join_path, joined_path};
use vstd::prelude::*;

verus! {

/// The keys of a listing rise strictly, so none occurs twice.
pub open spec fn keys_rising<T>(items: Seq<(Seq<char>, T)>) -> bool {
    forall|i: int, j: int| 0 <= i < j < items.len() ==> path_lt(items[i].0, items[j].0)
}

/// The map that a listing spells out; of two items with one key the later
/// one counts.
pub open spec fn listed<T>(items: Seq<(Seq<char>, T)>) -> Map<Seq<char>, T>
    decreases items.len(),
{
    if items.len() == 0 {
        Map::empty()
    } else {
        listed(items.drop_last()).insert(items.last().0, items.last().1)
    }
}

/// `key` is the key of one of the first `n` items.
pub open spec fn key_among<T>(items: Seq<(Seq<char>, T)>, n: int, key: Seq<char>) -> bool {
    exists|i: int| 0 <= i < n && i < items.len() && #[trigger] items[i].0 == key
}

/// A key is in the map of a listing exactly if an item has it.
pub proof fn lemma_listed_keys<T>(items: Seq<(Seq<char>, T)>, key: Seq<char>)
    ensures
        listed(items).contains_key(key) <==> key_among(items, items.len() as int, key),
    decreases items.len(),
{
    if items.len() > 0 {
        let front = items.drop_last();
        lemma_listed_keys(front, key);
        if key_among(front, front.len() as int, key) {
            let i = choose|i: int| 0 <= i < front.len() && #[trigger] front[i].0 == key;
            assert(items[i].0 == key);
        }
        if key_among(items, items.len() as int, key) {
            let i = choose|i: int| 0 <= i < items.len() && #[trigger] items[i].0 == key;
            if i < front.len() {
                assert(front[i].0 == key);
            }
        }
    }
}

/// In a listing with rising keys each item's key maps to that item's value.
pub proof fn lemma_listed_value<T>(items: Seq<(Seq<char>, T)>, i: int)
    requires
        keys_rising(items),
        0 <= i < items.len(),
    ensures
        listed(items).contains_key(items[i].0),
        listed(items)[items[i].0] == items[i].1,
    decreases items.len(),
{
    let front = items.drop_last();
    if i < items.len() - 1 {
        assert(keys_rising(front)) by {
            assert forall|a: int, b: int| 0 <= a < b < front.len() implies path_lt(
                front[a].0,
                front[b].0,
            ) by {
                assert(path_lt(items[a].0, items[b].0));
            }
        }
        lemma_listed_value(front, i);
        assert(front[i] == items[i]);
        assert(path_lt(items[i].0, items.last().0));
        lemma_lex_irreflexive(items[i].0, true);
    }
}

/// Putting an item into a rising listing, at a place that keeps it rising,
/// adds the item to the map.
#[verifier::rlimit(40)]
pub proof fn lemma_listed_insert<T>(items: Seq<(Seq<char>, T)>, at: int, key: Seq<char>, value: T)
    requires
        keys_rising(items),
        0 <= at <= items.len(),
        keys_rising(items.insert(at, (key, value))),
    ensures
        listed(items.insert(at, (key, value))) =~= listed(items).insert(key, value),
{
    let grown = items.insert(at, (key, value));
    let target = listed(items).insert(key, value);
    assert forall|q: Seq<char>| listed(grown).contains_key(q) <==> target.contains_key(q) by {
        lemma_listed_keys(grown, q);
        lemma_listed_keys(items, q);
        if key_among(grown, grown.len() as int, q) {
            let i = choose|i: int| 0 <= i < grown.len() && #[trigger] grown[i].0 == q;
            if i < at {
                assert(items[i].0 == q);
            } else if i > at {
                assert(items[i - 1].0 == q);
            }
        }
        if key_among(items, items.len() as int, q) {
            let i = choose|i: int| 0 <= i < items.len() && #[trigger] items[i].0 == q;
            if i < at {
                assert(grown[i].0 == q);
            } else {
                assert(grown[i + 1].0 == q);
            }
        }
        if q == key {
            assert(grown[at].0 == q);
        }
    }
    assert forall|q: Seq<char>| listed(grown).contains_key(q) implies listed(grown)[q]
        == target[q] by {
        lemma_listed_keys(grown, q);
        let i = choose|i: int| 0 <= i < grown.len() && #[trigger] grown[i].0 == q;
        lemma_listed_value(grown, i);
        if i < at {
            lemma_listed_value(items, i);
            assert(path_lt(grown[i].0, grown[at].0));
            lemma_lex_irreflexive(q, true);
        } else if i > at {
            lemma_listed_value(items, i - 1);
            assert(path_lt(grown[at].0, grown[i].0));
            lemma_lex_irreflexive(q, true);
        }
    }
}

/// Replacing the value of an item of a rising listing replaces it in the map.
#[verifier::rlimit(40)]
pub proof fn lemma_listed_update<T>(items: Seq<(Seq<char>, T)>, at: int, value: T)
    requires
        keys_rising(items),
        0 <= at < items.len(),
    ensures
        keys_rising(items.update(at, (items[at].0, value))),
        listed(items.update(at, (items[at].0, value))) =~= listed(items).insert(
            items[at].0,
            value,
        ),
{
    let key = items[at].0;
    let changed = items.update(at, (key, value));
    let target = listed(items).insert(key, value);
    assert(keys_rising(changed)) by {
        assert forall|a: int, b: int| 0 <= a < b < changed.len() implies path_lt(
            changed[a].0,
            changed[b].0,
        ) by {
            assert(path_lt(items[a].0, items[b].0));
        }
    }
    assert forall|q: Seq<char>| listed(changed).contains_key(q) <==> target.contains_key(q) by {
        lemma_listed_keys(changed, q);
        lemma_listed_keys(items, q);
        if key_among(changed, changed.len() as int, q) {
            let i = choose|i: int| 0 <= i < changed.len() && #[trigger] changed[i].0 == q;
            assert(items[i].0 == q);
        }
        if key_among(items, items.len() as int, q) {
            let i = choose|i: int| 0 <= i < items.len() && #[trigger] items[i].0 == q;
            assert(changed[i].0 == q);
        }
        if q == key {
            assert(changed[at].0 == q);
        }
    }
    assert forall|q: Seq<char>| listed(changed).contains_key(q) implies listed(changed)[q]
        == target[q] by {
        lemma_listed_keys(changed, q);
        let i = choose|i: int| 0 <= i < changed.len() && #[trigger] changed[i].0 == q;
        lemma_listed_value(changed, i);
        if i != at {
            lemma_listed_value(items, i);
            if i < at {
                assert(path_lt(items[i].0, items[at].0));
            } else {
                assert(path_lt(items[at].0, items[i].0));
            }
            lemma_lex_irreflexive(q, true);
        }
    }
}

/// Without its last item a rising listing spells the map without the last
/// key.
pub proof fn lemma_listed_front<T>(items: Seq<(Seq<char>, T)>)
    requires
        keys_rising(items),
        items.len() > 0,
    ensures
        keys_rising(items.drop_last()),
        listed(items.drop_last()) =~= listed(items).remove(items.last().0),
{
    let front = items.drop_last();
    assert forall|a: int, b: int| 0 <= a < b < front.len() implies path_lt(
        front[a].0,
        front[b].0,
    ) by {
        assert(path_lt(items[a].0, items[b].0));
    }
    lemma_listed_keys(front, items.last().0);
    if key_among(front, front.len() as int, items.last().0) {
        let i = choose|i: int| 0 <= i < front.len() && #[trigger] front[i].0 == items.last().0;
        assert(path_lt(items[i].0, items.last().0));
        lemma_lex_irreflexive(items.last().0, true);
    }
}

/// Two rising listings that spell the same map are the same listing.
#[verifier::rlimit(40)]
pub proof fn lemma_rising_unique<T>(first: Seq<(Seq<char>, T)>, second: Seq<(Seq<char>, T)>)
    requires
        keys_rising(first),
        keys_rising(second),
        listed(first) == listed(second),
    ensures
        first == second,
    decreases first.len(),
{
    if first.len() == 0 || second.len() == 0 {
        if first.len() > 0 {
            lemma_listed_value(first, 0);
        }
        if second.len() > 0 {
            lemma_listed_value(second, 0);
        }
        assert(first =~= second);
    } else {
        let x = first.last();
        let y = second.last();
        lemma_listed_value(first, first.len() - 1);
        lemma_listed_value(second, second.len() - 1);
        lemma_listed_keys(first, y.0);
        lemma_listed_keys(second, x.0);
        let i = choose|i: int| 0 <= i < first.len() && #[trigger] first[i].0 == y.0;
        let j = choose|j: int| 0 <= j < second.len() && #[trigger] second[j].0 == x.0;
        lemma_lex_total(x.0, y.0, true);
        if i < first.len() - 1 {
            assert(path_lt(first[i].0, x.0));
        }
        if j < second.len() - 1 {
            assert(path_lt(second[j].0, y.0));
        }
        assert(x.0 == y.0);
        assert(x.1 == y.1);
        lemma_listed_front(first);
        lemma_listed_front(second);
        lemma_rising_unique(first.drop_last(), second.drop_last());
        assert(first =~= first.drop_last().push(x));
        assert(second =~= second.drop_last().push(y));
    }
}

/// The items of a map in path order: the one rising listing that spells it.
pub open spec fn in_path_order<T>(m: Map<Seq<char>, T>) -> Seq<(Seq<char>, T)> {
    choose|items: Seq<(Seq<char>, T)>| keys_rising(items) && listed(items) == m
}

/// A map with the items of a listing added one by one, each under its key
/// adjoined to `root`.
pub open spec fn rebased<T>(
    base: Map<Seq<char>, T>,
    root: Seq<char>,
    items: Seq<(Seq<char>, T)>,
) -> Map<Seq<char>, T>
    decreases items.len(),
{
    if items.len() == 0 {
        base
    } else {
        rebased(base, root, items.drop_last()).insert(
            joined_path(root, items.last().0),
            items.last().1,
        )
    }
}

/// A map from paths to values of type `V`.
#[derive(Debug)]
pub struct PathMap<V: View> {
    entries: Vec<(String, V)>,
}

impl<V: View> View for PathMap<V> {
    type V = Map<Seq<char>, V::V>;

    open spec fn view(&self) -> Map<Seq<char>, V::V> {
        listed(self.items())
    }
}

impl<V: View> PathMap<V> {
    /// The keys and values of the map, as texts, in path order.
    pub closed spec fn items(&self) -> Seq<(Seq<char>, V::V)> {
        self.entries@.map_values(|e: (String, V)| (e.0@, e.1@))
    }

    #[verifier::type_invariant]
    spec fn rising(&self) -> bool {
        keys_rising(self.items())
    }

    /// The empty map.
    pub fn new() -> (m: Self)
        ensures
            m@ == Map::<Seq<char>, V::V>::empty(),
            m.items().len() == 0,
    {
        let m = PathMap { entries: Vec::new() };
        assert(m.items() =~= Seq::empty());
        m
    }

    /// The number of keys.
    pub fn len(&self) -> (n: usize)
        ensures
            n == self.items().len(),
    {
        self.entries.len()
    }

    /// Whether the map has no key.
    pub fn is_empty(&self) -> (r: bool)
        ensures
            r == (self.items().len() == 0),
            r == (self@ == Map::<Seq<char>, V::V>::empty()),
    {
        proof {
            if self.items().len() > 0 {
                lemma_listed_keys(self.items(), self.items()[0].0);
                assert(self@.contains_key(self.items()[0].0));
            } else {
                assert(self@ =~= Map::<Seq<char>, V::V>::empty());
            }
        }
        self.entries.len() == 0
    }

    /// The entries of the map, in path order.
    pub fn entries(&self) -> (list: &Vec<(String, V)>)
        ensures
            list@.map_values(|e: (String, V)| (e.0@, e.1@)) == self.items(),
            keys_rising(self.items()),
            self.items() == in_path_order(self@),
    {
        proof {
            use_type_invariant(self);
            lemma_rising_unique(self.items(), in_path_order(self@));
        }
        &self.entries
    }

    /// The place of `key` in the listing: the number of keys before it, and
    /// whether the key at that place is `key` itself.
    fn place(&self, key: &str) -> (r: (usize, bool))
        ensures
            r.0 <= self.items().len(),
            forall|i: int| 0 <= i < r.0 ==> path_lt(#[trigger] self.items()[i].0, key@),
            forall|i: int|
                r.0 + (if r.1 { 1int } else { 0 }) <= i < self.items().len() ==> path_lt(
                    key@,
                    #[trigger] self.items()[i].0,
                ),
            r.1 ==> r.0 < self.items().len() && self.items()[r.0 as int].0 == key@,
            r.1 == self@.contains_key(key@),
    {
        proof {
            use_type_invariant(self);
        }
        let ghost items = self.items();
        let mut lo: usize = 0;
        let mut hi: usize = self.entries.len();
        while lo < hi
            invariant
                items == self.items(),
                keys_rising(items),
                lo <= hi <= self.entries.len(),
                self.entries.len() == items.len(),
                forall|i: int| 0 <= i < lo ==> path_lt(#[trigger] items[i].0, key@),
                forall|i: int| hi <= i < items.len() ==> path_lt(key@, #[trigger] items[i].0),
            decreases hi - lo,
        {
            let mid = lo + (hi - lo) / 2;
            let sign = compare(self.entries[mid].0.as_str(), key, true);
            assert(items[mid as int].0 == self.entries[mid as int].0@);
            proof {
                lemma_lex_total(items[mid as int].0, key@, true);
            }
            match sign {
                Sign::Same => {
                    proof {
                        assert forall|i: int| 0 <= i < mid implies path_lt(
                            #[trigger] items[i].0,
                            key@,
                        ) by {
                            assert(path_lt(items[i].0, items[mid as int].0));
                        }
                        assert forall|i: int| mid + 1 <= i < items.len() implies path_lt(
                            key@,
                            #[trigger] items[i].0,
                        ) by {
                            assert(path_lt(items[mid as int].0, items[i].0));
                        }
                        lemma_listed_keys(items, key@);
                    }
                    return (mid, true);
                },
                Sign::Before => {
                    proof {
                        assert forall|i: int| 0 <= i < mid + 1 implies path_lt(
                            #[trigger] items[i].0,
                            key@,
                        ) by {
                            if i < mid {
                                assert(path_lt(items[i].0, items[mid as int].0));
                                lemma_lex_transitive(items[i].0, items[mid as int].0, key@, true);
                            }
                        }
                    }
                    lo = mid + 1;
                },
                Sign::After => {
                    proof {
                        assert forall|i: int| mid <= i < items.len() implies path_lt(
                            key@,
                            #[trigger] items[i].0,
                        ) by {
                            if i > mid {
                                assert(path_lt(items[mid as int].0, items[i].0));
                                lemma_lex_transitive(key@, items[mid as int].0, items[i].0, true);
                            }
                        }
                    }
                    hi = mid;
                },
            }
        }
        proof {
            lemma_listed_keys(items, key@);
            if key_among(items, items.len() as int, key@) {
                let i = choose|i: int| 0 <= i < items.len() && #[trigger] items[i].0 == key@;
                lemma_lex_irreflexive(key@, true);
            }
        }
        (lo, false)
    }

    /// Whether `key` is in the map.
    pub fn contains_key(&self, key: &str) -> (r: bool)
        ensures
            r == self@.contains_key(key@),
    {
        self.place(key).1
    }

    /// The value of `key`, if the map has it.
    pub fn get(&self, key: &str) -> (r: Option<&V>)
        ensures
            match r {
                Some(v) => self@.contains_key(key@) && self@[key@] == v@,
                None => !self@.contains_key(key@),
            },
    {
        let (at, found) = self.place(key);
        if found {
            proof {
                use_type_invariant(self);
                lemma_listed_value(self.items(), at as int);
            }
            Some(&self.entries[at].1)
        } else {
            None
        }
    }

    /// Maps `key` to `value`, in place of what it was mapped to before.
    pub fn insert(&mut self, key: String, value: V)
        ensures
            final(self)@ == old(self)@.insert(key@, value@),
    {
        proof {
            use_type_invariant(&*self);
        }
        let (at, found) = self.place(key.as_str());
        let ghost before = self.items();
        let mut taken = PathMap::new();
        std::mem::swap(self, &mut taken);
        let mut entries = taken.entries;
        if found {
            entries.set(at, (key, value));
            proof {
                lemma_listed_update(before, at as int, value@);
                assert(entries@.map_values(|e: (String, V)| (e.0@, e.1@)) =~= before.update(
                    at as int,
                    (before[at as int].0, value@),
                ));
            }
        } else {
            entries.insert(at, (key, value));
            proof {
                let grown = before.insert(at as int, (key@, value@));
                assert(entries@.map_values(|e: (String, V)| (e.0@, e.1@)) =~= grown);
                assert(keys_rising(grown)) by {
                    assert forall|a: int, b: int| 0 <= a < b < grown.len() implies path_lt(
                        grown[a].0,
                        grown[b].0,
                    ) by {
                        if b < at {
                            assert(path_lt(before[a].0, before[b].0));
                        } else if b == at {
                            assert(path_lt(before[a].0, key@));
                        } else if a < at {
                            assert(path_lt(before[a].0, before[b - 1].0));
                        } else if a == at {
                            assert(path_lt(key@, before[b - 1].0));
                        } else {
                            assert(path_lt(before[a - 1].0, before[b - 1].0));
                        }
                    }
                }
                lemma_listed_insert(before, at as int, key@, value@);
            }
        }
        *self = PathMap { entries };
    }

    /// Adds every entry of `other`; where both map a key, `other` counts.
    pub fn extend(&mut self, other: PathMap<V>)
        ensures
            final(self)@ == old(self)@.union_prefer_right(other@),
    {
        let ghost start = self@;
        let ghost items = other.items();
        let rest = other.entries;
        let ghost listing = rest@;
        assert(self@ =~= start.union_prefer_right(listed(items.take(0))));
        for e in it: rest
            invariant
                it.seq() == listing,
                listing.map_values(|e: (String, V)| (e.0@, e.1@)) == items,
                self@ == start.union_prefer_right(listed(items.take(it.index() as int))),
        {
            let ghost n = it.index() as int;
            let (key, value) = e;
            proof {
                assert(items.take(n + 1).drop_last() =~= items.take(n));
                assert(items.take(n + 1).last() == (key@, value@));
                assert(start.union_prefer_right(listed(items.take(n + 1)))
                    =~= start.union_prefer_right(listed(items.take(n))).insert(key@, value@));
            }
            self.insert(key, value);
        }
        assert(items.take(items.len() as int) =~= items);
    }

    /// Adds every entry of `other`, in path order, each under its key
    /// adjoined to `root`.
    pub fn extend_under(&mut self, root: &str, other: PathMap<V>)
        ensures
            final(self)@ == rebased(old(self)@, root@, in_path_order(other@)),
    {
        proof {
            use_type_invariant(&other);
            lemma_rising_unique(other.items(), in_path_order(other@));
        }
        let ghost start = self@;
        let ghost items = other.items();
        let rest = other.entries;
        let ghost listing = rest@;
        assert(items.take(0) =~= Seq::empty());
        for e in it: rest
            invariant
                it.seq() == listing,
                listing.map_values(|e: (String, V)| (e.0@, e.1@)) == items,
                self@ == rebased(start, root@, items.take(it.index() as int)),
        {
            let ghost n = it.index() as int;
            let (key, value) = e;
            proof {
                assert(items.take(n + 1).drop_last() =~= items.take(n));
                assert(items.take(n + 1).last() == (key@, value@));
            }
            self.insert(join_path(root, key.as_str()), value);
        }
        assert(items.take(items.len() as int) =~= items);
    }
}

} // verus!
