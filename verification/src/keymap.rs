//! A small association map with exact `Map` semantics, backed by a
//! vector of pairs with distinct keys.

use vstd::prelude::*;

verus! {

/// A key that can be compared in executable code, with the comparison
/// agreeing with specification equality.
pub trait KeyLike: Sized {
    /// Equality test agreeing with spec equality.
    fn key_eq(&self, other: &Self) -> (r: bool)
        ensures
            r == (*self == *other),
    ;
}

impl KeyLike for crate::hashes::Hash256 {
    fn key_eq(&self, other: &Self) -> (r: bool)
        ensures
            r == (*self == *other),
    {
        self.w0 == other.w0 && self.w1 == other.w1 && self.w2 == other.w2 && self.w3 == other.w3
    }
}

impl KeyLike for crate::types::OutPoint {
    fn key_eq(&self, other: &Self) -> (r: bool)
        ensures
            r == (*self == *other),
    {
        self.txid.key_eq(&other.txid) && self.vout == other.vout
    }
}

/// A map from keys to values, stored as a vector of pairs whose keys
/// are pairwise distinct.
pub struct KeyMap<K, V> {
    pub pairs: Vec<(K, V)>,
}

impl<K: KeyLike, V> KeyMap<K, V> {
    /// The backing sequence of key-value pairs.
    pub open spec fn pairs(&self) -> Seq<(K, V)> {
        self.pairs@
    }

    /// Well-formed: no two pairs share a key.
    pub open spec fn wf(&self) -> bool {
        forall|i: int, j: int|
            0 <= i < j < self.pairs@.len() ==> (#[trigger] self.pairs@[i]).0 != (
            #[trigger] self.pairs@[j]).0
    }

    /// The abstract map held.
    pub open spec fn view(&self) -> Map<K, V> {
        Map::new(
            |k: K| exists|i: int| 0 <= i < self.pairs@.len() && (#[trigger] self.pairs@[i]).0 == k,
            |k: K|
                {
                    let i = choose|i: int|
                        0 <= i < self.pairs@.len() && (#[trigger] self.pairs@[i]).0 == k;
                    self.pairs@[i].1
                },
        )
    }

    /// Each stored pair is in the abstract map.
    pub proof fn lemma_pair_in_view(&self, i: int)
        requires
            self.wf(),
            0 <= i < self.pairs().len(),
        ensures
            self.view().dom().contains(self.pairs()[i].0),
            self.view()[self.pairs()[i].0] == self.pairs()[i].1,
    {
        let k = self.pairs@[i].0;
        assert(exists|j: int| 0 <= j < self.pairs@.len() && (#[trigger] self.pairs@[j]).0 == k);
        let j = choose|j: int| 0 <= j < self.pairs@.len() && (#[trigger] self.pairs@[j]).0 == k;
        if i < j {
            assert(self.pairs@[i].0 != self.pairs@[j].0);
        } else if j < i {
            assert(self.pairs@[j].0 != self.pairs@[i].0);
        }
    }

    /// The empty map.
    pub fn new() -> (m: KeyMap<K, V>)
        ensures
            m.wf(),
            m@ == Map::<K, V>::empty(),
            m.pairs().len() == 0,
    {
        let m = KeyMap { pairs: Vec::new() };
        proof {
            assert(m@ =~= Map::<K, V>::empty());
        }
        m
    }

    /// Number of entries.
    pub fn len(&self) -> (n: usize)
        ensures
            n == self.pairs().len(),
    {
        self.pairs.len()
    }

    /// Whether no entry is held.
    pub fn is_empty(&self) -> (b: bool)
        requires
            self.wf(),
        ensures
            b == (self@ == Map::<K, V>::empty()),
    {
        let n = self.pairs.len();
        proof {
            if n == 0 {
                assert(self@ =~= Map::<K, V>::empty());
            } else {
                self.lemma_pair_in_view(0);
                assert(self@.dom().contains(self.pairs@[0].0));
            }
        }
        n == 0
    }

    /// Index of a key's pair, if present.
    fn index_of(&self, k: &K) -> (r: Option<usize>)
        requires
            self.wf(),
        ensures
            match r {
                Some(i) => i < self.pairs().len() && self.pairs()[i as int].0 == *k
                    && self@.dom().contains(*k) && self@[*k] == self.pairs()[i as int].1,
                None => !self@.dom().contains(*k),
            },
    {
        let n = self.pairs.len();
        let mut i: usize = 0;
        while i < n
            invariant
                i <= n,
                n == self.pairs@.len(),
                self.wf(),
                forall|j: int| 0 <= j < i ==> (#[trigger] self.pairs@[j]).0 != *k,
            decreases n - i,
        {
            if self.pairs[i].0.key_eq(k) {
                proof {
                    self.lemma_pair_in_view(i as int);
                }
                return Some(i);
            }
            i = i + 1;
        }
        proof {
            if self@.dom().contains(*k) {
                let j = choose|j: int|
                    0 <= j < self.pairs@.len() && (#[trigger] self.pairs@[j]).0 == *k;
                assert(self.pairs@[j].0 != *k);
            }
        }
        None
    }

    /// Whether a key is present.
    pub fn contains_key(&self, k: &K) -> (b: bool)
        requires
            self.wf(),
        ensures
            b == self@.dom().contains(*k),
    {
        match self.index_of(k) {
            Some(_) => true,
            None => false,
        }
    }

    /// The value at a key, if present.
    pub fn get(&self, k: &K) -> (r: Option<&V>)
        requires
            self.wf(),
        ensures
            match r {
                Some(v) => self@.dom().contains(*k) && *v == self@[*k],
                None => !self@.dom().contains(*k),
            },
    {
        match self.index_of(k) {
            Some(i) => Some(&self.pairs[i].1),
            None => None,
        }
    }

    /// Insert a value at a key, replacing any previous value.
    pub fn insert(&mut self, k: K, v: V)
        requires
            old(self).wf(),
        ensures
            final(self).wf(),
            final(self)@ == old(self)@.insert(k, v),
            final(self).pairs().len() <= old(self).pairs().len() + 1,
    {
        let idx = self.index_of(&k);
        match idx {
            Some(i) => {
                let ghost oldp = self.pairs@;
                self.pairs.set(i, (k, v));
                proof {
                    assert(self.wf()) by {
                        assert(forall|a: int, b: int|
                            0 <= a < b < self.pairs@.len() ==> (#[trigger] self.pairs@[a]).0 != (
                            #[trigger] self.pairs@[b]).0) by {
                            assert(forall|a: int|
                                0 <= a < self.pairs@.len() && a != i ==> self.pairs@[a]
                                    == oldp[a]);
                        }
                    }
                    assert(self@ =~= old(self)@.insert(k, v)) by {
                        assert forall|x: K| self@.dom().contains(x) implies old(self)@.insert(
                            k,
                            v,
                        ).dom().contains(x) by {
                            let j = choose|j: int|
                                0 <= j < self.pairs@.len() && (#[trigger] self.pairs@[j]).0 == x;
                            if j != i {
                                old(self).lemma_pair_in_view(j);
                            }
                        }
                        assert forall|x: K| old(self)@.insert(k, v).dom().contains(x) implies self@.dom().contains(
                            x,
                        ) by {
                            if x == k {
                                assert(self.pairs@[i as int].0 == x);
                            } else {
                                let j = choose|j: int|
                                    0 <= j < oldp.len() && (#[trigger] oldp[j]).0 == x;
                                assert(self.pairs@[j].0 == x);
                            }
                        }
                        assert forall|x: K| self@.dom().contains(x) implies self@[x] == old(
                            self,
                        )@.insert(k, v)[x] by {
                            let j = choose|j: int|
                                0 <= j < self.pairs@.len() && (#[trigger] self.pairs@[j]).0 == x;
                            self.lemma_pair_in_view(j);
                            if x == k {
                                if j != i {
                                    assert(oldp[j].0 == x);
                                    old(self).lemma_pair_in_view(j);
                                    old(self).lemma_pair_in_view(i as int);
                                    assert(false);
                                }
                            } else {
                                assert(j != i);
                                old(self).lemma_pair_in_view(j);
                            }
                        }
                    }
                }
            },
            None => {
                let ghost oldp = self.pairs@;
                self.pairs.push((k, v));
                proof {
                    assert(self.wf()) by {
                        assert(forall|a: int|
                            0 <= a < oldp.len() ==> self.pairs@[a] == oldp[a]);
                        if exists|a: int| 0 <= a < oldp.len() && (#[trigger] oldp[a]).0 == k {
                            let a = choose|a: int|
                                0 <= a < oldp.len() && (#[trigger] oldp[a]).0 == k;
                            assert(old(self)@.dom().contains(k));
                        }
                    }
                    assert(self@ =~= old(self)@.insert(k, v)) by {
                        assert forall|x: K| self@.dom().contains(x) implies old(self)@.insert(
                            k,
                            v,
                        ).dom().contains(x) by {
                            let j = choose|j: int|
                                0 <= j < self.pairs@.len() && (#[trigger] self.pairs@[j]).0 == x;
                            if j < oldp.len() {
                                old(self).lemma_pair_in_view(j);
                            }
                        }
                        assert forall|x: K| old(self)@.insert(k, v).dom().contains(x) implies self@.dom().contains(
                            x,
                        ) by {
                            if x == k {
                                assert(self.pairs@[oldp.len() as int].0 == x);
                            } else {
                                let j = choose|j: int|
                                    0 <= j < oldp.len() && (#[trigger] oldp[j]).0 == x;
                                assert(self.pairs@[j].0 == x);
                            }
                        }
                        assert forall|x: K| self@.dom().contains(x) implies self@[x] == old(
                            self,
                        )@.insert(k, v)[x] by {
                            let j = choose|j: int|
                                0 <= j < self.pairs@.len() && (#[trigger] self.pairs@[j]).0 == x;
                            self.lemma_pair_in_view(j);
                            if x == k {
                                if j < oldp.len() {
                                    old(self).lemma_pair_in_view(j);
                                    assert(false);
                                }
                            } else {
                                assert(j < oldp.len());
                                old(self).lemma_pair_in_view(j);
                            }
                        }
                    }
                }
            },
        }
    }

    /// Remove a key's entry, returning its value if it was present.
    pub fn remove(&mut self, k: &K) -> (r: Option<V>)
        requires
            old(self).wf(),
        ensures
            final(self).wf(),
            final(self)@ == old(self)@.remove(*k),
            match r {
                Some(_) => old(self)@.dom().contains(*k) && final(self).pairs().len() == old(
                    self,
                ).pairs().len() - 1,
                None => !old(self)@.dom().contains(*k) && final(self).pairs() == old(
                    self,
                ).pairs(),
            },
            r matches Some(v) ==> v == old(self)@[*k],
    {
        let idx = self.index_of(k);
        match idx {
            Some(i) => {
                let ghost oldp = self.pairs@;
                let pair = self.pairs.swap_remove(i);
                proof {
                    let n = oldp.len() as int;
                    // After swap_remove, the pairs are the old ones except
                    // index i now holds the old last pair, and the length
                    // shrank by one.
                    assert(self.wf()) by {
                        assert(forall|a: int|
                            0 <= a < self.pairs@.len() && a != i ==> self.pairs@[a] == oldp[a]);
                    }
                    assert(self@ =~= old(self)@.remove(*k)) by {
                        assert forall|x: K| self@.dom().contains(x) implies old(self)@.remove(
                            *k,
                        ).dom().contains(x) by {
                            let j = choose|j: int|
                                0 <= j < self.pairs@.len() && (#[trigger] self.pairs@[j]).0 == x;
                            if j == i && i < self.pairs@.len() {
                                old(self).lemma_pair_in_view(n - 1);
                            } else {
                                old(self).lemma_pair_in_view(j);
                            }
                            if x == *k {
                                if j == i {
                                    if i < self.pairs@.len() {
                                        assert(oldp[n - 1].0 == x);
                                        old(self).lemma_pair_in_view(i as int);
                                        assert(false);
                                    }
                                } else {
                                    old(self).lemma_pair_in_view(j);
                                    old(self).lemma_pair_in_view(i as int);
                                    assert(false);
                                }
                            }
                        }
                        assert forall|x: K| old(self)@.remove(*k).dom().contains(x) implies self@.dom().contains(
                            x,
                        ) by {
                            let j = choose|j: int| 0 <= j < n && (#[trigger] oldp[j]).0 == x;
                            if j == n - 1 {
                                if i < n - 1 {
                                    assert(self.pairs@[i as int].0 == x);
                                }
                            } else if j != i {
                                assert(self.pairs@[j].0 == x);
                            }
                        }
                        assert forall|x: K| self@.dom().contains(x) implies self@[x] == old(
                            self,
                        )@.remove(*k)[x] by {
                            let j = choose|j: int|
                                0 <= j < self.pairs@.len() && (#[trigger] self.pairs@[j]).0 == x;
                            self.lemma_pair_in_view(j);
                            if j == i && i < self.pairs@.len() {
                                old(self).lemma_pair_in_view(n - 1);
                            } else {
                                old(self).lemma_pair_in_view(j);
                            }
                        }
                    }
                }
                Some(pair.1)
            },
            None => {
                proof {
                    assert(self@ =~= old(self)@.remove(*k));
                }
                None
            },
        }
    }

    /// Read access to the pairs, for iteration.
    pub fn entries(&self) -> (r: &Vec<(K, V)>)
        ensures
            r@ == self.pairs(),
    {
        &self.pairs
    }
}


/// Byte-string equality.
pub fn bytes_eq(a: &Vec<u8>, b: &Vec<u8>) -> (r: bool)
    ensures
        r == (a@ == b@),
{
    let n = a.len();
    if n != b.len() {
        proof {
            assert(a@.len() != b@.len());
        }
        return false;
    }
    let mut i: usize = 0;
    while i < n
        invariant
            i <= n,
            n == a@.len(),
            n == b@.len(),
            forall|j: int| 0 <= j < i ==> a@[j] == b@[j],
        decreases n - i,
    {
        if a[i] != b[i] {
            return false;
        }
        i = i + 1;
    }
    proof {
        assert(a@ =~= b@);
    }
    true
}

/// A map keyed by byte strings, stored as a vector of pairs whose key
/// views are pairwise distinct.
pub struct ByteMap<V> {
    pub pairs: Vec<(Vec<u8>, V)>,
}

impl<V> ByteMap<V> {
    /// The backing sequence of key-value pairs.
    pub open spec fn pairs(&self) -> Seq<(Vec<u8>, V)> {
        self.pairs@
    }

    /// Well-formed: no two pairs share a key.
    pub open spec fn wf(&self) -> bool {
        forall|i: int, j: int|
            0 <= i < j < self.pairs@.len() ==> (#[trigger] self.pairs@[i]).0@ != (
            #[trigger] self.pairs@[j]).0@
    }

    /// The abstract map held, keyed by byte sequences.
    pub open spec fn view(&self) -> Map<Seq<u8>, V> {
        Map::new(
            |k: Seq<u8>|
                exists|i: int| 0 <= i < self.pairs@.len() && (#[trigger] self.pairs@[i]).0@ == k,
            |k: Seq<u8>|
                {
                    let i = choose|i: int|
                        0 <= i < self.pairs@.len() && (#[trigger] self.pairs@[i]).0@ == k;
                    self.pairs@[i].1
                },
        )
    }

    /// Each stored pair is in the abstract map.
    pub proof fn lemma_pair_in_view(&self, i: int)
        requires
            self.wf(),
            0 <= i < self.pairs().len(),
        ensures
            self.view().dom().contains(self.pairs()[i].0@),
            self.view()[self.pairs()[i].0@] == self.pairs()[i].1,
    {
        let k = self.pairs@[i].0@;
        assert(exists|j: int| 0 <= j < self.pairs@.len() && (#[trigger] self.pairs@[j]).0@ == k);
        let j = choose|j: int| 0 <= j < self.pairs@.len() && (#[trigger] self.pairs@[j]).0@ == k;
        if i < j {
            assert(self.pairs@[i].0@ != self.pairs@[j].0@);
        } else if j < i {
            assert(self.pairs@[j].0@ != self.pairs@[i].0@);
        }
    }

    /// The empty map.
    pub fn new() -> (m: ByteMap<V>)
        ensures
            m.wf(),
            m@ == Map::<Seq<u8>, V>::empty(),
            m.pairs().len() == 0,
    {
        let m = ByteMap { pairs: Vec::new() };
        proof {
            assert(m@ =~= Map::<Seq<u8>, V>::empty());
        }
        m
    }

    /// Number of entries.
    pub fn len(&self) -> (n: usize)
        ensures
            n == self.pairs().len(),
    {
        self.pairs.len()
    }

    /// Index of a key's pair, if present.
    fn index_of(&self, k: &Vec<u8>) -> (r: Option<usize>)
        requires
            self.wf(),
        ensures
            match r {
                Some(i) => i < self.pairs().len() && self.pairs()[i as int].0@ == k@
                    && self@.dom().contains(k@) && self@[k@] == self.pairs()[i as int].1,
                None => !self@.dom().contains(k@),
            },
    {
        let n = self.pairs.len();
        let mut i: usize = 0;
        while i < n
            invariant
                i <= n,
                n == self.pairs@.len(),
                self.wf(),
                forall|j: int| 0 <= j < i ==> (#[trigger] self.pairs@[j]).0@ != k@,
            decreases n - i,
        {
            if bytes_eq(&self.pairs[i].0, k) {
                proof {
                    self.lemma_pair_in_view(i as int);
                }
                return Some(i);
            }
            i = i + 1;
        }
        proof {
            if self@.dom().contains(k@) {
                let j = choose|j: int|
                    0 <= j < self.pairs@.len() && (#[trigger] self.pairs@[j]).0@ == k@;
                assert(self.pairs@[j].0@ != k@);
            }
        }
        None
    }

    /// Whether a key is present.
    pub fn contains_key(&self, k: &Vec<u8>) -> (b: bool)
        requires
            self.wf(),
        ensures
            b == self@.dom().contains(k@),
    {
        match self.index_of(k) {
            Some(_) => true,
            None => false,
        }
    }

    /// The value at a key, if present.
    pub fn get(&self, k: &Vec<u8>) -> (r: Option<&V>)
        requires
            self.wf(),
        ensures
            match r {
                Some(v) => self@.dom().contains(k@) && *v == self@[k@],
                None => !self@.dom().contains(k@),
            },
    {
        match self.index_of(k) {
            Some(i) => Some(&self.pairs[i].1),
            None => None,
        }
    }

    /// Insert a value at a key, replacing any previous value.
    pub fn insert(&mut self, k: Vec<u8>, v: V)
        requires
            old(self).wf(),
        ensures
            final(self).wf(),
            final(self)@ == old(self)@.insert(k@, v),
            final(self).pairs().len() <= old(self).pairs().len() + 1,
    {
        let idx = self.index_of(&k);
        match idx {
            Some(i) => {
                let ghost oldp = self.pairs@;
                let ghost kv = k@;
                self.pairs.set(i, (k, v));
                proof {
                    assert(self.wf()) by {
                        assert(forall|a: int|
                            0 <= a < self.pairs@.len() && a != i ==> self.pairs@[a] == oldp[a]);
                        assert(self.pairs@[i as int].0@ == oldp[i as int].0@);
                    }
                    assert(self@ =~= old(self)@.insert(kv, v)) by {
                        assert forall|x: Seq<u8>| self@.dom().contains(x) implies old(
                            self,
                        )@.insert(kv, v).dom().contains(x) by {
                            let j = choose|j: int|
                                0 <= j < self.pairs@.len() && (#[trigger] self.pairs@[j]).0@ == x;
                            if j != i {
                                old(self).lemma_pair_in_view(j);
                            }
                        }
                        assert forall|x: Seq<u8>| old(self)@.insert(kv, v).dom().contains(
                            x,
                        ) implies self@.dom().contains(x) by {
                            if x == kv {
                                assert(self.pairs@[i as int].0@ == x);
                            } else {
                                let j = choose|j: int|
                                    0 <= j < oldp.len() && (#[trigger] oldp[j]).0@ == x;
                                assert(self.pairs@[j].0@ == x);
                            }
                        }
                        assert forall|x: Seq<u8>| self@.dom().contains(x) implies self@[x] == old(
                            self,
                        )@.insert(kv, v)[x] by {
                            let j = choose|j: int|
                                0 <= j < self.pairs@.len() && (#[trigger] self.pairs@[j]).0@ == x;
                            self.lemma_pair_in_view(j);
                            if x == kv {
                                if j != i {
                                    assert(oldp[j].0@ == x);
                                    old(self).lemma_pair_in_view(j);
                                    old(self).lemma_pair_in_view(i as int);
                                    assert(false);
                                }
                            } else {
                                assert(j != i);
                                old(self).lemma_pair_in_view(j);
                            }
                        }
                    }
                }
            },
            None => {
                let ghost oldp = self.pairs@;
                let ghost kv = k@;
                self.pairs.push((k, v));
                proof {
                    assert(self.wf()) by {
                        assert(forall|a: int| 0 <= a < oldp.len() ==> self.pairs@[a] == oldp[a]);
                        if exists|a: int| 0 <= a < oldp.len() && (#[trigger] oldp[a]).0@ == kv {
                            let a = choose|a: int|
                                0 <= a < oldp.len() && (#[trigger] oldp[a]).0@ == kv;
                            assert(old(self)@.dom().contains(kv));
                        }
                    }
                    assert(self@ =~= old(self)@.insert(kv, v)) by {
                        assert forall|x: Seq<u8>| self@.dom().contains(x) implies old(
                            self,
                        )@.insert(kv, v).dom().contains(x) by {
                            let j = choose|j: int|
                                0 <= j < self.pairs@.len() && (#[trigger] self.pairs@[j]).0@ == x;
                            if j < oldp.len() {
                                old(self).lemma_pair_in_view(j);
                            }
                        }
                        assert forall|x: Seq<u8>| old(self)@.insert(kv, v).dom().contains(
                            x,
                        ) implies self@.dom().contains(x) by {
                            if x == kv {
                                assert(self.pairs@[oldp.len() as int].0@ == x);
                            } else {
                                let j = choose|j: int|
                                    0 <= j < oldp.len() && (#[trigger] oldp[j]).0@ == x;
                                assert(self.pairs@[j].0@ == x);
                            }
                        }
                        assert forall|x: Seq<u8>| self@.dom().contains(x) implies self@[x] == old(
                            self,
                        )@.insert(kv, v)[x] by {
                            let j = choose|j: int|
                                0 <= j < self.pairs@.len() && (#[trigger] self.pairs@[j]).0@ == x;
                            self.lemma_pair_in_view(j);
                            if x == kv {
                                if j < oldp.len() {
                                    old(self).lemma_pair_in_view(j);
                                    assert(false);
                                }
                            } else {
                                assert(j < oldp.len());
                                old(self).lemma_pair_in_view(j);
                            }
                        }
                    }
                }
            },
        }
    }

    /// Remove a key's entry, returning whether it was present.
    pub fn remove(&mut self, k: &Vec<u8>) -> (r: bool)
        requires
            old(self).wf(),
        ensures
            final(self).wf(),
            final(self)@ == old(self)@.remove(k@),
            r == old(self)@.dom().contains(k@),
            r ==> final(self).pairs().len() == old(self).pairs().len() - 1,
            !r ==> final(self).pairs() == old(self).pairs(),
    {
        let idx = self.index_of(k);
        match idx {
            Some(i) => {
                let ghost oldp = self.pairs@;
                let _ = self.pairs.swap_remove(i);
                proof {
                    let n = oldp.len() as int;
                    assert(self.wf()) by {
                        assert(forall|a: int|
                            0 <= a < self.pairs@.len() && a != i ==> self.pairs@[a] == oldp[a]);
                    }
                    assert(self@ =~= old(self)@.remove(k@)) by {
                        assert forall|x: Seq<u8>| self@.dom().contains(x) implies old(
                            self,
                        )@.remove(k@).dom().contains(x) by {
                            let j = choose|j: int|
                                0 <= j < self.pairs@.len() && (#[trigger] self.pairs@[j]).0@ == x;
                            if j == i && i < self.pairs@.len() {
                                old(self).lemma_pair_in_view(n - 1);
                            } else {
                                old(self).lemma_pair_in_view(j);
                            }
                            if x == k@ {
                                if j == i {
                                    if i < self.pairs@.len() {
                                        assert(oldp[n - 1].0@ == x);
                                        old(self).lemma_pair_in_view(i as int);
                                        assert(false);
                                    }
                                } else {
                                    old(self).lemma_pair_in_view(j);
                                    old(self).lemma_pair_in_view(i as int);
                                    assert(false);
                                }
                            }
                        }
                        assert forall|x: Seq<u8>| old(self)@.remove(k@).dom().contains(
                            x,
                        ) implies self@.dom().contains(x) by {
                            let j = choose|j: int| 0 <= j < n && (#[trigger] oldp[j]).0@ == x;
                            if j == n - 1 {
                                if i < n - 1 {
                                    assert(self.pairs@[i as int].0@ == x);
                                }
                            } else if j != i {
                                assert(self.pairs@[j].0@ == x);
                            }
                        }
                        assert forall|x: Seq<u8>| self@.dom().contains(x) implies self@[x] == old(
                            self,
                        )@.remove(k@)[x] by {
                            let j = choose|j: int|
                                0 <= j < self.pairs@.len() && (#[trigger] self.pairs@[j]).0@ == x;
                            self.lemma_pair_in_view(j);
                            if j == i && i < self.pairs@.len() {
                                old(self).lemma_pair_in_view(n - 1);
                            } else {
                                old(self).lemma_pair_in_view(j);
                            }
                        }
                    }
                }
                true
            },
            None => {
                proof {
                    assert(self@ =~= old(self)@.remove(k@));
                }
                false
            },
        }
    }

    /// Read access to the pairs, for iteration.
    pub fn entries(&self) -> (r: &Vec<(Vec<u8>, V)>)
        ensures
            r@ == self.pairs(),
    {
        &self.pairs
    }
}

} // verus!
