//! The flat result: a mapping from composed keys to leaves, kept in key order.

use crate::order::{
    key_before, lemma_key_before_irreflexive, lemma_key_before_transitive, rank, Rank,
};
use crate::value::{Tree, Value};
use vstd::prelude::*;

verus! {

/// The keys of `pairs` are strictly ascending in the key order.
pub open spec fn ascending(pairs: Seq<(Seq<char>, Tree)>) -> bool {
    forall|i: int, j: int|
        0 <= i < j < pairs.len() ==> key_before(#[trigger] pairs[i].0, #[trigger] pairs[j].0)
}

/// The mapping that a sequence of key/value pairs stands for: its domain
/// is the set of keys that occur, and each key maps to the value it is paired
/// with.
pub open spec fn pairs_map(pairs: Seq<(Seq<char>, Tree)>) -> Map<Seq<char>, Tree> {
    Map::new(
        |k: Seq<char>| exists|i: int| 0 <= i < pairs.len() && #[trigger] pairs[i].0 == k,
        |k: Seq<char>| pairs[choose|i: int| 0 <= i < pairs.len() && #[trigger] pairs[i].0 == k].1,
    )
}

/// In an ascending sequence no key occurs twice.
pub proof fn lemma_ascending_distinct(pairs: Seq<(Seq<char>, Tree)>, i: int, j: int)
    requires
        ascending(pairs),
        0 <= i < pairs.len(),
        0 <= j < pairs.len(),
        pairs[i].0 == pairs[j].0,
    ensures
        i == j,
{
    lemma_key_before_irreflexive(pairs[i].0);
}

/// In an ascending sequence each key maps to the value beside it.
pub proof fn lemma_pairs_map_at(pairs: Seq<(Seq<char>, Tree)>, i: int)
    requires
        ascending(pairs),
        0 <= i < pairs.len(),
    ensures
        pairs_map(pairs).contains_key(pairs[i].0),
        pairs_map(pairs)[pairs[i].0] == pairs[i].1,
{
    let k = pairs[i].0;
    let j = choose|j: int| 0 <= j < pairs.len() && #[trigger] pairs[j].0 == k;
    lemma_ascending_distinct(pairs, i, j);
}

/// Putting a new pair into an ascending sequence, at a place that keeps it
/// ascending, adds that pair to the mapping.
pub proof fn lemma_pairs_map_insert(
    pairs: Seq<(Seq<char>, Tree)>,
    at: int,
    key: Seq<char>,
    value: Tree,
)
    requires
        0 <= at <= pairs.len(),
        ascending(pairs),
        ascending(pairs.insert(at, (key, value))),
    ensures
        pairs_map(pairs.insert(at, (key, value))) == pairs_map(pairs).insert(key, value),
{
    let after = pairs.insert(at, (key, value));
    let expected = pairs_map(pairs).insert(key, value);
    assert forall|q: Seq<char>| #[trigger]
        pairs_map(after).dom().contains(q) implies expected.dom().contains(q) by {
        let i = choose|i: int| 0 <= i < after.len() && #[trigger] after[i].0 == q;
        if i < at {
            assert(pairs[i].0 == q);
        } else if i > at {
            assert(pairs[i - 1].0 == q);
        }
    }
    assert forall|q: Seq<char>| #[trigger] expected.dom().contains(q) implies pairs_map(
        after,
    ).dom().contains(q) && pairs_map(after)[q] == expected[q] by {
        if q == key {
            assert(after[at].0 == q);
            lemma_pairs_map_at(after, at);
        } else {
            let i = choose|i: int| 0 <= i < pairs.len() && #[trigger] pairs[i].0 == q;
            lemma_pairs_map_at(pairs, i);
            let j = if i < at {
                i
            } else {
                i + 1
            };
            assert(after[j] == pairs[i]);
            lemma_pairs_map_at(after, j);
        }
    }
    assert(pairs_map(after).dom() =~= expected.dom());
    assert(pairs_map(after) =~= expected);
}

/// Taking a pair out of an ascending sequence leaves it ascending and
/// removes its key from the mapping.
pub proof fn lemma_pairs_map_remove(pairs: Seq<(Seq<char>, Tree)>, at: int)
    requires
        0 <= at < pairs.len(),
        ascending(pairs),
    ensures
        ascending(pairs.remove(at)),
        pairs_map(pairs.remove(at)) == pairs_map(pairs).remove(pairs[at].0),
{
    let after = pairs.remove(at);
    let expected = pairs_map(pairs).remove(pairs[at].0);
    assert forall|i: int, j: int| 0 <= i < j < after.len() implies key_before(
        #[trigger] after[i].0,
        #[trigger] after[j].0,
    ) by {
        let i0 = if i < at { i } else { i + 1 };
        let j0 = if j < at { j } else { j + 1 };
        assert(after[i] == pairs[i0]);
        assert(after[j] == pairs[j0]);
    }
    assert forall|q: Seq<char>| pairs_map(after).contains_key(q) implies expected.contains_key(
        q,
    ) && pairs_map(after)[q] == expected[q] by {
        let i = choose|i: int| 0 <= i < after.len() && #[trigger] after[i].0 == q;
        let i0 = if i < at { i } else { i + 1 };
        assert(after[i] == pairs[i0]);
        lemma_pairs_map_at(after, i);
        lemma_pairs_map_at(pairs, i0);
        if q == pairs[at].0 {
            lemma_ascending_distinct(pairs, i0, at);
        }
    }
    assert forall|q: Seq<char>| expected.contains_key(q) implies pairs_map(after).contains_key(
        q,
    ) by {
        let i = choose|i: int| 0 <= i < pairs.len() && #[trigger] pairs[i].0 == q;
        let j = if i < at { i } else { i - 1 };
        assert(after[j] == pairs[i]);
    }
    assert(pairs_map(after) =~= expected);
}

/// A sequence stays ascending when a pair is put between the keys that
/// come before its key and those that come after it.
pub proof fn lemma_ascending_put(
    pairs: Seq<(Seq<char>, Tree)>,
    at: int,
    key: Seq<char>,
    value: Tree,
)
    requires
        0 <= at <= pairs.len(),
        ascending(pairs),
        forall|i: int| 0 <= i < at ==> key_before(#[trigger] pairs[i].0, key),
        forall|i: int| at <= i < pairs.len() ==> key_before(key, #[trigger] pairs[i].0),
    ensures
        ascending(pairs.insert(at, (key, value))),
{
    let after = pairs.insert(at, (key, value));
    assert forall|i: int, j: int| 0 <= i < j < after.len() implies key_before(
        #[trigger] after[i].0,
        #[trigger] after[j].0,
    ) by {
        if i < at {
            assert(after[i] == pairs[i]);
        } else if i > at {
            assert(after[i] == pairs[i - 1]);
        }
        if j < at {
            assert(after[j] == pairs[j]);
        } else if j > at {
            assert(after[j] == pairs[j - 1]);
        }
    }
}

/// Putting a pair behind an ascending sequence whose keys all come before
/// its key adds that pair to the mapping.
pub proof fn lemma_pairs_map_push(pairs: Seq<(Seq<char>, Tree)>, key: Seq<char>, value: Tree)
    requires
        ascending(pairs.push((key, value))),
    ensures
        ascending(pairs),
        !pairs_map(pairs).contains_key(key),
        pairs_map(pairs.push((key, value))) == pairs_map(pairs).insert(key, value),
{
    let longer = pairs.push((key, value));
    let n = pairs.len() as int;
    assert forall|i: int, j: int| 0 <= i < j < pairs.len() implies key_before(
        #[trigger] pairs[i].0,
        #[trigger] pairs[j].0,
    ) by {
        assert(longer[i] == pairs[i]);
        assert(longer[j] == pairs[j]);
    }
    if pairs_map(pairs).contains_key(key) {
        let i = choose|i: int| 0 <= i < pairs.len() && #[trigger] pairs[i].0 == key;
        assert(longer[i] == pairs[i]);
        assert(longer[n].0 == key);
        lemma_ascending_distinct(longer, i, n);
    }
    assert(longer =~= pairs.insert(n, (key, value)));
    lemma_pairs_map_insert(pairs, n, key, value);
}

/// An ascending sequence stands for a finite mapping with one entry for each
/// of its pairs.
pub proof fn lemma_pairs_map_len(pairs: Seq<(Seq<char>, Tree)>)
    requires
        ascending(pairs),
    ensures
        pairs_map(pairs).dom().finite(),
        pairs_map(pairs).len() == pairs.len(),
    decreases pairs.len(),
{
    if pairs.len() == 0 {
        assert(pairs_map(pairs).dom() =~= Set::empty());
    } else {
        let shorter = pairs.drop_last();
        let last = pairs.last();
        assert(pairs =~= shorter.push((last.0, last.1)));
        lemma_pairs_map_push(shorter, last.0, last.1);
        lemma_pairs_map_len(shorter);
        assert(pairs_map(pairs).dom() =~= pairs_map(shorter).dom().insert(last.0));
    }
}

/// The key and the model of the value of each entry, in the entries' order.
pub open spec fn pairs_of(entries: Seq<(String, Value)>) -> Seq<(Seq<char>, Tree)> {
    Seq::new(entries.len(), |i: int| (entries[i].0@, entries[i].1@))
}

/// A mapping from composed keys to leaves, held in ascending key order.
#[derive(Debug, PartialEq, Eq)]
pub struct FlatMap {
    entries: Vec<(String, Value)>,
}

impl View for FlatMap {
    type V = Map<Seq<char>, Tree>;

    open spec fn view(&self) -> Map<Seq<char>, Tree> {
        pairs_map(self.pairs())
    }
}

impl FlatMap {
    /// The invariant of the type: the entries are held in ascending key
    /// order, so that no key occurs twice.
    pub open spec fn wf(&self) -> bool {
        ascending(self.pairs())
    }

    /// The entries in the order in which they are held, each as its key and
    /// the model of its value.
    pub closed spec fn pairs(&self) -> Seq<(Seq<char>, Tree)> {
        pairs_of(self.entries@)
    }

    /// An empty mapping.
    pub fn new() -> (r: FlatMap)
        ensures
            r.wf(),
            r.pairs() == Seq::<(Seq<char>, Tree)>::empty(),
            r@ == Map::<Seq<char>, Tree>::empty(),
    {
        let r = FlatMap { entries: Vec::new() };
        assert(r.pairs() =~= Seq::empty());
        assert(r@ =~= Map::empty());
        r
    }

    /// The place of `key` in the order: the number of entries whose keys come
    /// before it, and whether the entry at that place holds `key`.
    fn locate(&self, key: &str) -> (r: (usize, bool))
        requires
            self.wf(),
        ensures
            r.0 <= self.pairs().len(),
            forall|i: int| 0 <= i < r.0 ==> key_before(#[trigger] self.pairs()[i].0, key@),
            r.1 ==> r.0 < self.pairs().len() && self.pairs()[r.0 as int].0 == key@,
            !r.1 ==> forall|i: int|
                r.0 <= i < self.pairs().len() ==> key_before(key@, #[trigger] self.pairs()[i].0),
    {
        let ghost pairs = self.pairs();
        let mut lo: usize = 0;
        let mut hi: usize = self.entries.len();
        while lo < hi
            invariant
                pairs == self.pairs(),
                ascending(pairs),
                0 <= lo <= hi <= self.entries.len(),
                pairs.len() == self.entries.len(),
                forall|i: int| 0 <= i < lo ==> key_before(#[trigger] pairs[i].0, key@),
                forall|i: int| hi <= i < pairs.len() ==> key_before(key@, #[trigger] pairs[i].0),
            decreases hi - lo,
        {
            let mid = lo + (hi - lo) / 2;
            let r = rank(self.entries[mid].0.as_str(), key);
            assert(pairs[mid as int].0 == self.entries[mid as int].0@);
            match r {
                Rank::Same => {
                    return (mid, true);
                },
                Rank::Before => {
                    proof {
                        assert forall|i: int| 0 <= i < mid + 1 implies key_before(
                            #[trigger] pairs[i].0,
                            key@,
                        ) by {
                            if i < mid {
                                lemma_key_before_transitive(pairs[i].0, pairs[mid as int].0, key@);
                            }
                        }
                    }
                    lo = mid + 1;
                },
                Rank::After => {
                    proof {
                        assert forall|i: int| mid <= i < pairs.len() implies key_before(
                            key@,
                            #[trigger] pairs[i].0,
                        ) by {
                            if mid < i {
                                lemma_key_before_transitive(key@, pairs[mid as int].0, pairs[i].0);
                            }
                        }
                    }
                    hi = mid;
                },
            }
        }
        (lo, false)
    }

    /// Puts `value` under `key`, in place of the value that `key` had, and
    /// returns that value if there was one.
    pub fn insert(&mut self, key: String, value: Value) -> (r: Option<Value>)
        requires
            old(self).wf(),
        ensures
            final(self).wf(),
            final(self)@ == old(self)@.insert(key@, value@),
            match r {
                Some(v) => old(self)@.contains_key(key@) && v@ == old(self)@[key@],
                None => !old(self)@.contains_key(key@),
            },
    {
        let (at, found) = self.locate(key.as_str());
        let ghost before = self.pairs();
        let ghost k = key@;
        let ghost v = value@;
        if found {
            proof {
                lemma_pairs_map_at(before, at as int);
                lemma_pairs_map_remove(before, at as int);
            }
            let gone = self.entries.remove(at);
            assert(self.pairs() =~= before.remove(at as int));
            let ghost without = self.pairs();
            proof {
                lemma_ascending_put(without, at as int, k, v);
                lemma_pairs_map_insert(without, at as int, k, v);
            }
            self.entries.insert(at, (key, value));
            assert(self.pairs() =~= without.insert(at as int, (k, v)));
            assert(self@ =~= pairs_map(before).insert(k, v));
            Some(gone.1)
        } else {
            proof {
                lemma_ascending_put(before, at as int, k, v);
                lemma_pairs_map_insert(before, at as int, k, v);
                if pairs_map(before).contains_key(k) {
                    let i = choose|i: int| 0 <= i < before.len() && #[trigger] before[i].0 == k;
                    lemma_key_before_irreflexive(k);
                }
            }
            self.entries.insert(at, (key, value));
            assert(self.pairs() =~= before.insert(at as int, (k, v)));
            None
        }
    }

    /// The number of entries.
    pub fn len(&self) -> (n: usize)
        requires
            self.wf(),
        ensures
            n == self.pairs().len(),
            self@.dom().finite(),
            n == self@.len(),
    {
        proof {
            lemma_pairs_map_len(self.pairs());
        }
        self.entries.len()
    }

    /// The value under `key`, if there is one.
    pub fn get(&self, key: &str) -> (r: Option<&Value>)
        requires
            self.wf(),
        ensures
            match r {
                Some(v) => self@.contains_key(key@) && v@ == self@[key@],
                None => !self@.contains_key(key@),
            },
    {
        let (at, found) = self.locate(key);
        if found {
            proof {
                lemma_pairs_map_at(self.pairs(), at as int);
            }
            Some(&self.entries[at].1)
        } else {
            proof {
                let pairs = self.pairs();
                if pairs_map(pairs).contains_key(key@) {
                    let i = choose|i: int| 0 <= i < pairs.len() && #[trigger] pairs[i].0 == key@;
                    lemma_key_before_irreflexive(key@);
                }
            }
            None
        }
    }

    /// The entries, in ascending key order.
    pub fn entries(&self) -> (r: &Vec<(String, Value)>)
        requires
            self.wf(),
        ensures
            pairs_of(r@) == self.pairs(),
            ascending(pairs_of(r@)),
    {
        &self.entries
    }

    /// Gives up the mapping for its entries, in ascending key order.
    pub fn into_entries(self) -> (r: Vec<(String, Value)>)
        requires
            self.wf(),
        ensures
            pairs_of(r@) == self.pairs(),
            ascending(pairs_of(r@)),
    {
        self.entries
    }

    /// Moves every entry of `other` into this mapping. Where both hold a
    /// key, the value of `other` replaces the one held here.
    pub fn append(&mut self, other: FlatMap)
        requires
            old(self).wf(),
            other.wf(),
        ensures
            final(self).wf(),
            final(self)@ == old(self)@.union_prefer_right(other@),
    {
        let mut rest = other.entries;
        let ghost goal = self@.union_prefer_right(other@);
        while rest.len() > 0
            invariant
                self.wf(),
                ascending(pairs_of(rest@)),
                self@.union_prefer_right(pairs_map(pairs_of(rest@))) == goal,
            decreases rest.len(),
        {
            let ghost before = pairs_of(rest@);
            let ghost held = self@;
            let entry = rest.pop().unwrap();
            proof {
                let shorter = pairs_of(rest@);
                assert(before =~= shorter.push((entry.0@, entry.1@)));
                lemma_pairs_map_push(shorter, entry.0@, entry.1@);
                assert(held.insert(entry.0@, entry.1@).union_prefer_right(pairs_map(shorter))
                    =~= held.union_prefer_right(pairs_map(before)));
            }
            self.insert(entry.0, entry.1);
        }
        proof {
            assert(pairs_map(pairs_of(rest@)) =~= Map::empty());
            assert(self@.union_prefer_right(Map::empty()) =~= self@);
        }
    }
}

} // verus!
