//! A map from texts to values that lists its keys in ascending order.

use vstd::prelude::*;
use crate::collation::{
    ascending, in_order, law_order_irreflexive, law_order_transitive, lemma_ascending_no_duplicates,
    lemma_in_order_unique, rank, text_before, Rank,
};

verus! {

/// The texts that strings hold.
pub open spec fn texts(strings: Seq<String>) -> Seq<Seq<char>> {
    strings.map_values(|s: String| s@)
}

/// A map with text keys. The keys are kept in ascending order, so a walk over
/// the map never depends on how it was filled.
#[derive(Clone, Debug)]
pub struct StringMap<V> {
    keys: Vec<String>,
    values: Vec<V>,
}

impl<V> View for StringMap<V> {
    type V = Map<Seq<char>, V>;

    closed spec fn view(&self) -> Map<Seq<char>, V> {
        Map::new(
            |k: Seq<char>| self.key_order().contains(k),
            |k: Seq<char>| self.values@[self.key_order().index_of(k)],
        )
    }
}

impl<V> StringMap<V> {
    /// The keys, in the order in which the map lists them.
    pub closed spec fn key_order(&self) -> Seq<Seq<char>> {
        texts(self.keys@)
    }

    /// The values, each at the position of its key.
    pub closed spec fn value_order(&self) -> Seq<V> {
        self.values@
    }

    /// Every key has one value, and the keys are ascending.
    pub closed spec fn well_formed(&self) -> bool {
        &&& self.keys@.len() == self.values@.len()
        &&& ascending(self.key_order())
    }

    /// The map is determined by its two listings, and its keys are listed in order.
    pub proof fn lemma_listing(&self)
        requires
            self.well_formed(),
        ensures
            self@.dom().finite(),
            self.key_order() == in_order(self@.dom()),
            self.key_order().len() == self@.len(),
            self.value_order().len() == self@.len(),
            ascending(self.key_order()),
            self.key_order().no_duplicates(),
            forall|k: Seq<char>| self@.contains_key(k) <==> self.key_order().contains(k),
            forall|i: int|
                0 <= i < self.key_order().len() ==> #[trigger] self@.contains_key(
                    self.key_order()[i],
                ) && self@[self.key_order()[i]] == self.value_order()[i],
    {
        lemma_ascending_no_duplicates(self.key_order());
        assert forall|i: int| 0 <= i < self.key_order().len() implies #[trigger] self@.contains_key(
            self.key_order()[i],
        ) && self@[self.key_order()[i]] == self.value_order()[i] by {
            assert(self.key_order().contains(self.key_order()[i]));
            let j = self.key_order().index_of(self.key_order()[i]);
            assert(j == i);
        }
        lemma_in_order_unique(self@.dom(), self.key_order());
        assert(self@.dom() =~= self.key_order().to_set());
        self.key_order().unique_seq_to_set();
    }

    /// Two maps that list the same keys, and the same values but for one.
    pub proof fn lemma_value_changed(&self, after: Self, i: int, value: V)
        requires
            self.well_formed(),
            after.well_formed(),
            0 <= i < self.value_order().len(),
            after.key_order() == self.key_order(),
            after.value_order() == self.value_order().update(i, value),
        ensures
            after@ == self@.insert(self.key_order()[i], value),
    {
        self.lemma_listing();
        let target = self@.insert(self.key_order()[i], value);
        assert forall|j: int| 0 <= j < after.key_order().len() implies #[trigger] target.contains_key(
            after.key_order()[j],
        ) && target[after.key_order()[j]] == after.value_order()[j] by {
            assert(self@.contains_key(self.key_order()[j]));
        }
        assert forall|k: Seq<char>| #[trigger]
            target.contains_key(k) implies after.key_order().contains(k) by {
            assert(self.key_order().contains(self.key_order()[i]));
        }
        lemma_same_listing(after, target);
    }

    /// An empty map.
    pub fn new() -> (m: Self)
        ensures
            m.well_formed(),
            m@ == Map::<Seq<char>, V>::empty(),
    {
        let m = StringMap { keys: Vec::new(), values: Vec::new() };
        assert(m@ =~= Map::<Seq<char>, V>::empty());
        m
    }

    /// The number of keys.
    pub fn len(&self) -> (n: usize)
        requires
            self.well_formed(),
        ensures
            n == self@.len(),
    {
        proof {
            self.lemma_listing();
        }
        self.keys.len()
    }

    /// Whether the map has no key.
    pub fn is_empty(&self) -> (b: bool)
        requires
            self.well_formed(),
        ensures
            b == (self@.len() == 0),
    {
        self.len() == 0
    }

    /// The position of a key, or the position at which it would have to stand.
    fn position(&self, key: &str) -> (r: Result<usize, usize>)
        requires
            self.well_formed(),
        ensures
            match r {
                Ok(i) => i < self.keys.len() && self.key_order()[i as int] == key@,
                Err(i) => {
                    &&& i <= self.keys.len()
                    &&& !self.key_order().contains(key@)
                    &&& forall|j: int| 0 <= j < i ==> text_before(self.key_order()[j], key@)
                    &&& forall|j: int|
                        i <= j < self.keys.len() ==> text_before(key@, self.key_order()[j])
                },
            },
    {
        let mut low: usize = 0;
        let mut high: usize = self.keys.len();
        while low < high
            invariant
                self.well_formed(),
                low <= high <= self.keys.len(),
                forall|j: int| 0 <= j < low ==> text_before(self.key_order()[j], key@),
                forall|j: int| high <= j < self.keys.len() ==> text_before(key@, self.key_order()[j]),
            decreases high - low,
        {
            let mid: usize = low + (high - low) / 2;
            let ghost here = self.key_order()[mid as int];
            match rank(self.keys[mid].as_str(), key) {
                Rank::Same => {
                    return Ok(mid);
                },
                Rank::Before => {
                    assert forall|j: int| 0 <= j < mid + 1 implies text_before(
                        self.key_order()[j],
                        key@,
                    ) by {
                        if j < mid {
                            law_order_transitive(self.key_order()[j], here, key@);
                        }
                    }
                    low = mid + 1;
                },
                Rank::After => {
                    assert forall|j: int| mid <= j < self.keys.len() implies text_before(
                        key@,
                        self.key_order()[j],
                    ) by {
                        if j > mid {
                            law_order_transitive(key@, here, self.key_order()[j]);
                        }
                    }
                    high = mid;
                },
            }
        }
        proof {
            law_order_irreflexive(key@);
            if self.key_order().contains(key@) {
                let j = choose|j: int|
                    0 <= j < self.key_order().len() && self.key_order()[j] == key@;
                assert(false);
            }
        }
        Err(low)
    }

    /// Whether the map has the key.
    pub fn contains_key(&self, key: &str) -> (b: bool)
        requires
            self.well_formed(),
        ensures
            b == self@.contains_key(key@),
    {
        proof {
            self.lemma_listing();
        }
        self.position(key).is_ok()
    }

    /// The value of a key.
    pub fn get(&self, key: &str) -> (r: Option<&V>)
        requires
            self.well_formed(),
        ensures
            match r {
                Some(v) => self@.contains_key(key@) && *v == self@[key@],
                None => !self@.contains_key(key@),
            },
    {
        proof {
            self.lemma_listing();
        }
        match self.position(key) {
            Ok(i) => {
                assert(self@.contains_key(self.key_order()[i as int]));
                Some(&self.values[i])
            },
            Err(_) => None,
        }
    }

    /// The position of a key in the listing of the map.
    pub fn index_of(&self, key: &str) -> (r: Option<usize>)
        requires
            self.well_formed(),
        ensures
            match r {
                Some(i) => i < self@.len() && self.key_order()[i as int] == key@,
                None => !self@.contains_key(key@),
            },
    {
        proof {
            self.lemma_listing();
        }
        match self.position(key) {
            Ok(i) => Some(i),
            Err(_) => None,
        }
    }

    /// The keys, in ascending order.
    pub fn keys(&self) -> (keys: &Vec<String>)
        requires
            self.well_formed(),
        ensures
            texts(keys@) == in_order(self@.dom()),
            texts(keys@) == self.key_order(),
    {
        proof {
            self.lemma_listing();
        }
        &self.keys
    }

    /// The key at a position.
    pub fn key_at(&self, i: usize) -> (k: &String)
        requires
            self.well_formed(),
            i < self@.len(),
        ensures
            k@ == self.key_order()[i as int],
    {
        proof {
            self.lemma_listing();
        }
        &self.keys[i]
    }

    /// The value at a position.
    pub fn value_at(&self, i: usize) -> (v: &V)
        requires
            self.well_formed(),
            i < self@.len(),
        ensures
            *v == self.value_order()[i as int],
    {
        proof {
            self.lemma_listing();
        }
        &self.values[i]
    }

    /// The value at a position, to be changed in place.
    pub fn value_at_mut(&mut self, i: usize) -> (v: &mut V)
        requires
            old(self).well_formed(),
            i < old(self)@.len(),
        ensures
            *v == old(self).value_order()[i as int],
            final(self).well_formed(),
            final(self).key_order() == old(self).key_order(),
            final(self).value_order() == old(self).value_order().update(i as int, *final(v)),
    {
        proof {
            self.lemma_listing();
        }
        &mut self.values[i]
    }

    /// Gives a key a value, and hands back the value that it had.
    pub fn insert(&mut self, key: String, value: V) -> (r: Option<V>)
        requires
            old(self).well_formed(),
        ensures
            final(self).well_formed(),
            final(self)@ == old(self)@.insert(key@, value),
            match r {
                Some(v) => old(self)@.contains_key(key@) && v == old(self)@[key@],
                None => !old(self)@.contains_key(key@),
            },
    {
        proof {
            self.lemma_listing();
        }
        let ghost text = key@;
        let ghost before = *self;
        match self.position(key.as_str()) {
            Ok(i) => {
                let mut other = value;
                assert(self@.contains_key(self.key_order()[i as int]));
                std::mem::swap(&mut self.values[i], &mut other);
                proof {
                    assert(self.key_order() == before.key_order());
                    assert(self.value_order() == before.value_order().update(i as int, value));
                    self.lemma_listing();
                    lemma_same_listing(*self, before@.insert(text, value));
                }
                Some(other)
            },
            Err(i) => {
                self.keys.insert(i, key);
                self.values.insert(i, value);
                proof {
                    assert(self.key_order() =~= before.key_order().insert(i as int, text));
                    assert(self.value_order() =~= before.value_order().insert(i as int, value));
                    before.lemma_ascending_insert(i as int, text);
                    self.lemma_listing();
                    let target = before@.insert(text, value);
                    assert forall|k: Seq<char>| #[trigger]
                        target.contains_key(k) implies self.key_order().contains(k) by {
                        if k == text {
                            assert(self.key_order()[i as int] == text);
                        } else {
                            let j = choose|j: int|
                                0 <= j < before.key_order().len() && before.key_order()[j] == k;
                            let j2 = if j < i { j } else { j + 1 };
                            assert(self.key_order()[j2] == k);
                        }
                    }
                    assert forall|j: int|
                        0 <= j < self.key_order().len() implies #[trigger] target.contains_key(
                        self.key_order()[j],
                    ) && target[self.key_order()[j]] == self.value_order()[j] by {
                        if j < i {
                            assert(self.key_order()[j] == before.key_order()[j]);
                            assert(before@.contains_key(before.key_order()[j]));
                        } else if j > i {
                            assert(self.key_order()[j] == before.key_order()[j - 1]);
                            assert(before@.contains_key(before.key_order()[j - 1]));
                        }
                    }
                    lemma_same_listing(*self, target);
                }
                None
            },
        }
    }

    proof fn lemma_ascending_insert(&self, i: int, text: Seq<char>)
        requires
            self.well_formed(),
            0 <= i <= self.key_order().len(),
            forall|j: int| 0 <= j < i ==> text_before(self.key_order()[j], text),
            forall|j: int|
                i <= j < self.key_order().len() ==> text_before(text, self.key_order()[j]),
        ensures
            ascending(self.key_order().insert(i, text)),
    {
    }
}

/// A map agrees with `target` when it lists the keys of `target` with their values.
proof fn lemma_same_listing<V>(m: StringMap<V>, target: Map<Seq<char>, V>)
    requires
        m.well_formed(),
        forall|k: Seq<char>| #[trigger] target.contains_key(k) ==> m.key_order().contains(k),
        forall|j: int|
            0 <= j < m.key_order().len() ==> #[trigger] target.contains_key(m.key_order()[j])
                && target[m.key_order()[j]] == m.value_order()[j],
    ensures
        m@ == target,
{
    m.lemma_listing();
    assert forall|k: Seq<char>| m@.contains_key(k) implies target.contains_key(k) && target[k]
        == m@[k] by {
        let j = choose|j: int| 0 <= j < m.key_order().len() && m.key_order()[j] == k;
        assert(target.contains_key(m.key_order()[j]));
        assert(m@.contains_key(m.key_order()[j]));
    }
    assert(m@ =~= target);
}

} // verus!
