//! A map from node hashes to values, kept as two vectors of equal length in
//! which no hash occurs twice.

use crate::hashing::{hash_eq, NodeHash};
use vstd::prelude::*;

verus! {

/// A map from node hashes to values.
pub struct Table<T> {
    pub keys: Vec<NodeHash>,
    pub values: Vec<T>,
}

impl<T> View for Table<T> {
    type V = Map<Seq<u8>, T>;

    open spec fn view(&self) -> Map<Seq<u8>, T> {
        Map::new(|k: Seq<u8>| self.has(k), |k: Seq<u8>| self.values@[self.index_of(k)])
    }
}

/// The hashes among the first `n` of `keys`.
pub open spec fn keys_below(keys: Seq<NodeHash>, n: int) -> Set<Seq<u8>> {
    Set::new(|k: Seq<u8>| exists|i: int| 0 <= i < n && #[trigger] keys[i]@ == k)
}

/// `n` distinct hashes make a set of `n` elements.
proof fn lemma_keys_len(keys: Seq<NodeHash>, n: int)
    requires
        0 <= n <= keys.len(),
        forall|i: int, j: int| 0 <= i < j < keys.len() ==> keys[i]@ != keys[j]@,
    ensures
        keys_below(keys, n).finite(),
        keys_below(keys, n).len() == n,
    decreases n,
{
    broadcast use vstd::set::group_set_axioms;

    if n == 0 {
        assert(keys_below(keys, 0) =~= Set::empty());
    } else {
        lemma_keys_len(keys, n - 1);
        let last = keys[n - 1]@;
        assert(keys_below(keys, n) =~= keys_below(keys, n - 1).insert(last)) by {
            assert forall|k: Seq<u8>| keys_below(keys, n).contains(k) implies keys_below(keys, n - 1).insert(
                last,
            ).contains(k) by {
                let i = choose|i: int| 0 <= i < n && #[trigger] keys[i]@ == k;
                if i < n - 1 {
                    assert(keys_below(keys, n - 1).contains(k));
                }
            }
        }
        assert(!keys_below(keys, n - 1).contains(last));
    }
}

impl<T> Table<T> {
    /// Both vectors have one length and no hash occurs twice.
    pub open spec fn wf(&self) -> bool {
        &&& self.keys@.len() == self.values@.len()
        &&& forall|i: int, j: int| 0 <= i < j < self.keys@.len() ==> self.keys@[i]@ != self.keys@[j]@
    }

    /// The table holds a value under `key`.
    pub open spec fn has(&self, key: Seq<u8>) -> bool {
        exists|i: int| 0 <= i < self.keys@.len() && #[trigger] self.keys@[i]@ == key
    }

    /// An index at which `key` stands.
    pub open spec fn index_of(&self, key: Seq<u8>) -> int {
        choose|i: int| 0 <= i < self.keys@.len() && #[trigger] self.keys@[i]@ == key
    }

    /// Makes an empty table.
    pub fn new() -> (r: Self)
        ensures
            r.wf(),
            r@ == Map::<Seq<u8>, T>::empty(),
    {
        let r = Table { keys: Vec::new(), values: Vec::new() };
        assert(r@ =~= Map::<Seq<u8>, T>::empty());
        r
    }

    /// Returns the number of entries.
    pub fn len(&self) -> (r: usize)
        requires
            self.wf(),
        ensures
            self@.dom().finite(),
            r == self@.dom().len(),
    {
        proof {
            lemma_keys_len(self.keys@, self.keys@.len() as int);
            assert(self@.dom() =~= keys_below(self.keys@, self.keys@.len() as int));
        }
        self.keys.len()
    }

    /// Finds the index at which `key` stands.
    fn find(&self, key: &NodeHash) -> (r: Option<usize>)
        requires
            self.wf(),
        ensures
            match r {
                Some(i) => i < self.keys@.len() && self.keys@[i as int]@ == key@ && self.index_of(key@) == i,
                None => !self.has(key@),
            },
    {
        let mut i: usize = 0;
        while i < self.keys.len()
            invariant
                self.wf(),
                i <= self.keys@.len(),
                forall|j: int| 0 <= j < i ==> self.keys@[j]@ != key@,
            decreases self.keys@.len() - i,
        {
            if hash_eq(&self.keys[i], key) {
                return Some(i);
            }
            i = i + 1;
        }
        None
    }

    /// Tells whether the table holds a value under `key`.
    pub fn contains(&self, key: &NodeHash) -> (r: bool)
        requires
            self.wf(),
        ensures
            r == self@.contains_key(key@),
    {
        self.find(key).is_some()
    }

    /// Returns the value under `key`, if there is one.
    pub fn get(&self, key: &NodeHash) -> (r: Option<&T>)
        requires
            self.wf(),
        ensures
            match r {
                Some(v) => self@.contains_key(key@) && *v == self@[key@],
                None => !self@.contains_key(key@),
            },
    {
        match self.find(key) {
            Some(i) => Some(&self.values[i]),
            None => None,
        }
    }

    /// Puts `value` under `key`, in place of the value that stood there.
    pub fn insert(&mut self, key: NodeHash, value: T)
        requires
            old(self).wf(),
        ensures
            final(self).wf(),
            final(self)@ == old(self)@.insert(key@, value),
    {
        let ghost before = *self;
        match self.find(&key) {
            Some(i) => {
                self.values.set(i, value);
                proof {
                    assert(self.keys@ == before.keys@);
                    assert(before.keys@[i as int]@ == key@);
                    assert(before.has(key@));
                    assert forall|k: Seq<u8>| self.has(k) == before.has(k) by {
                        if self.has(k) {
                            let a = self.index_of(k);
                            assert(before.keys@[a]@ == k);
                        }
                        if before.has(k) {
                            let b = before.index_of(k);
                            assert(self.keys@[b]@ == k);
                        }
                    }
                    assert forall|k: Seq<u8>| self.has(k) implies #[trigger] self@[k] == before@.insert(
                        key@,
                        value,
                    )[k] by {
                        let a = self.index_of(k);
                        let b = before.index_of(k);
                        assert(before.has(k));
                        assert(a == b);
                    }
                    assert(self@ =~= before@.insert(key@, value));
                }
            },
            None => {
                self.keys.push(key);
                self.values.push(value);
                proof {
                    let n = before.keys@.len() as int;
                    assert(self.keys@[n]@ == key@);
                    assert forall|k: Seq<u8>| before.has(k) implies self.has(k) by {
                        let i = before.index_of(k);
                        assert(self.keys@[i]@ == k);
                    }
                    assert(self.has(key@));
                    assert forall|k: Seq<u8>| self.has(k) && k != key@ implies before.has(k) by {
                        let a = self.index_of(k);
                        assert(a < n);
                        assert(before.keys@[a]@ == k);
                    }
                    assert forall|k: Seq<u8>| self.has(k) implies #[trigger] self@[k] == before@.insert(
                        key@,
                        value,
                    )[k] by {
                        let a = self.index_of(k);
                        if k != key@ {
                            let b = before.index_of(k);
                            assert(before.has(k));
                            assert(self.keys@[b]@ == k);
                            assert(a == b);
                        } else {
                            assert(a == n);
                        }
                    }
                    assert(self@ =~= before@.insert(key@, value));
                }
            },
        }
    }

    /// Takes away the value under `key`, if there is one.
    pub fn remove(&mut self, key: &NodeHash)
        requires
            old(self).wf(),
        ensures
            final(self).wf(),
            final(self)@ == old(self)@.remove(key@),
    {
        let ghost before = *self;
        match self.find(key) {
            Some(i) => {
                let _ = self.keys.remove(i);
                let _ = self.values.remove(i);
                proof {
                    let shift = |j: int| if j < i { j } else { j + 1 };
                    assert forall|j: int| 0 <= j < self.keys@.len() implies #[trigger] self.keys@[j]
                        == before.keys@[shift(j)] && self.values@[j] == before.values@[shift(j)] by {}
                    assert forall|a: int, b: int| 0 <= a < b < self.keys@.len() implies self.keys@[a]@
                        != self.keys@[b]@ by {
                        assert(self.keys@[a] == before.keys@[shift(a)]);
                        assert(self.keys@[b] == before.keys@[shift(b)]);
                    }
                    assert forall|k: Seq<u8>| self.has(k) implies before.has(k) && k != key@ && #[trigger] self@[k]
                        == before@[k] by {
                        let a = self.index_of(k);
                        assert(self.keys@[a] == before.keys@[shift(a)]);
                        assert(before.keys@[shift(a)]@ == k);
                        let b = before.index_of(k);
                        assert(b == shift(a));
                    }
                    assert forall|k: Seq<u8>| before.has(k) && k != key@ implies self.has(k) by {
                        let b = before.index_of(k);
                        let a = if b < i { b } else { b - 1 };
                        assert(self.keys@[a] == before.keys@[shift(a)]);
                    }
                    assert(self@ =~= before@.remove(key@));
                }
            },
            None => {
                assert(self@ =~= before@.remove(key@));
            },
        }
    }
}

/// The models of the values of a map.
pub open spec fn models<T: View>(m: Map<Seq<u8>, T>) -> Map<Seq<u8>, T::V> {
    m.map_values(|t: T| t@)
}

/// The models stand under the same keys as the values, and no value has no
/// model.
pub proof fn lemma_models_dom<T: View>(m: Map<Seq<u8>, T>)
    ensures
        models(m).dom() == m.dom(),
        m == Map::<Seq<u8>, T>::empty() ==> models(m) == Map::<Seq<u8>, T::V>::empty(),
{
    assert(models(m).dom() =~= m.dom());
    if m == Map::<Seq<u8>, T>::empty() {
        assert(models(m) =~= Map::<Seq<u8>, T::V>::empty());
    }
}

/// The models after an insertion are the models before it with the model
/// of the new value.
pub proof fn lemma_models_insert<T: View>(m: Map<Seq<u8>, T>, key: Seq<u8>, value: T)
    ensures
        models(m.insert(key, value)) == models(m).insert(key, value@),
{
    assert(models(m.insert(key, value)) =~= models(m).insert(key, value@));
}

/// The models after a removal are the models before it without the key.
pub proof fn lemma_models_remove<T: View>(m: Map<Seq<u8>, T>, key: Seq<u8>)
    ensures
        models(m.remove(key)) == models(m).remove(key),
{
    assert(models(m.remove(key)) =~= models(m).remove(key));
}

impl<T: crate::node::MSSMTNode> Table<T> {
    /// Returns a copy of the table: the same hashes, each with a copy of
    /// its value.
    pub fn copy(&self) -> (r: Self)
        requires
            self.wf(),
        ensures
            r.wf(),
            models(r@) == models(self@),
    {
        let mut keys: Vec<NodeHash> = Vec::new();
        let mut values: Vec<T> = Vec::new();
        let mut i: usize = 0;
        while i < self.keys.len()
            invariant
                self.wf(),
                i <= self.keys@.len(),
                keys@.len() == i,
                values@.len() == i,
                forall|j: int| 0 <= j < i ==> keys@[j] == self.keys@[j],
                forall|j: int| 0 <= j < i ==> (#[trigger] values@[j])@ == self.values@[j]@,
            decreases self.keys@.len() - i,
        {
            keys.push(self.keys[i]);
            values.push(self.values[i].copy());
            i = i + 1;
        }
        let r = Table { keys, values };
        proof {
            assert(r.keys@ =~= self.keys@);
            assert forall|k: Seq<u8>| r.has(k) == self.has(k) by {
                if r.has(k) {
                    let a = r.index_of(k);
                    assert(self.keys@[a]@ == k);
                }
                if self.has(k) {
                    let b = self.index_of(k);
                    assert(r.keys@[b]@ == k);
                }
            }
            assert(models(r@) =~= models(self@));
        }
        r
    }
}

} // verus!
