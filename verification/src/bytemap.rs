use vstd::prelude::*;
use crate::bytes::bytes_eq;

verus! {

/// Position of the first occurrence of `k` in `keys` at or after `i`, or -1.
pub open spec fn first_index(keys: Seq<Seq<u8>>, k: Seq<u8>, i: nat) -> int
    decreases keys.len() - i,
{
    if i >= keys.len() {
        -1
    } else if keys[i as int] == k {
        i as int
    } else {
        first_index(keys, k, i + 1)
    }
}

/// What `first_index` finds.
pub proof fn lemma_first_index(keys: Seq<Seq<u8>>, k: Seq<u8>, i: nat)
    ensures
        first_index(keys, k, i) == -1 || (i <= first_index(keys, k, i) < keys.len()),
        first_index(keys, k, i) == -1 ==> forall|j: int| i <= j < keys.len() ==> keys[j] != k,
        first_index(keys, k, i) >= 0 ==> keys[first_index(keys, k, i)] == k,
        first_index(keys, k, i) >= 0 ==> forall|j: int| i <= j < first_index(keys, k, i) ==> keys[j] != k,
    decreases keys.len() - i,
{
    if i < keys.len() && keys[i as int] != k {
        lemma_first_index(keys, k, i + 1);
    }
}

/// Appending a key leaves the first occurrences of the others where they were.
pub proof fn lemma_first_index_push(keys: Seq<Seq<u8>>, k: Seq<u8>, k2: Seq<u8>, i: nat)
    requires
        i <= keys.len(),
    ensures
        first_index(keys.push(k), k2, i) == (if first_index(keys, k2, i) >= 0 {
            first_index(keys, k2, i)
        } else if k2 == k {
            keys.len() as int
        } else {
            -1
        }),
    decreases keys.len() - i,
{
    if i < keys.len() {
        assert(keys.push(k)[i as int] == keys[i as int]);
        if keys[i as int] != k2 {
            lemma_first_index_push(keys, k, k2, i + 1);
        }
    } else {
        assert(keys.push(k)[i as int] == k);
        if k2 != k {
            assert(first_index(keys.push(k), k2, i + 1) == -1);
        }
    }
}

/// A map keyed by byte strings, kept as a list of entries in insertion order.
/// A key is looked up at its first occurrence; `insert` never adds a key twice.
pub struct ByteMap<V> {
    entries: Vec<(Vec<u8>, V)>,
}

impl<V: View> ByteMap<V> {
    /// No key occurs twice.
    pub closed spec fn wf(&self) -> bool {
        self.key_seq().no_duplicates()
    }

    /// The keys, in the order in which they were first inserted.
    pub closed spec fn key_seq(&self) -> Seq<Seq<u8>> {
        Seq::new(self.entries@.len(), |i: int| self.entries@[i].0@)
    }

    spec fn index_of(&self, k: Seq<u8>) -> int {
        first_index(self.key_seq(), k, 0)
    }

    /// The value stored under `k`, as a value of `V` rather than its view.
    pub closed spec fn value_of(&self, k: Seq<u8>) -> V {
        self.entries@[self.index_of(k)].1
    }

    pub closed spec fn as_map(&self) -> Map<Seq<u8>, V::V> {
        Map::new(|k: Seq<u8>| self.index_of(k) >= 0, |k: Seq<u8>| self.value_of(k)@)
    }

    /// The keys of the map are those of `key_seq`.
    pub proof fn lemma_key_seq(&self)
        ensures
            forall|k: Seq<u8>| #[trigger] self.as_map().dom().contains(k) <==> self.key_seq().contains(k),
    {
        assert forall|k: Seq<u8>| #[trigger] self.as_map().dom().contains(k) <==> self.key_seq().contains(k) by {
            lemma_first_index(self.key_seq(), k, 0);
        }
    }

    /// A well-formed map lists each key once.
    pub proof fn lemma_wf_keys(&self)
        requires
            self.wf(),
        ensures
            self.key_seq().no_duplicates(),
    {
    }

    pub fn new() -> (r: Self)
        ensures
            r.wf(),
            r@ == Map::<Seq<u8>, V::V>::empty(),
            r.key_seq() == Seq::<Seq<u8>>::empty(),
    {
        let r = ByteMap { entries: Vec::new() };
        assert(r.as_map() =~= Map::<Seq<u8>, V::V>::empty());
        assert(r.key_seq() =~= Seq::<Seq<u8>>::empty());
        r
    }

    pub fn len(&self) -> (r: usize)
        ensures
            r == self.key_seq().len(),
    {
        self.entries.len()
    }

    fn find(&self, k: &[u8]) -> (r: Option<usize>)
        ensures
            match r {
                Some(i) => i == self.index_of(k@) && i < self.entries@.len(),
                None => self.index_of(k@) == -1,
            },
    {
        let mut i: usize = 0;
        while i < self.entries.len()
            invariant
                i <= self.entries@.len(),
                first_index(self.key_seq(), k@, 0) == first_index(self.key_seq(), k@, i as nat),
            decreases self.entries@.len() - i,
        {
            if bytes_eq(self.entries[i].0.as_slice(), k) {
                return Some(i);
            }
            i += 1;
        }
        None
    }

    pub fn contains_key(&self, k: &[u8]) -> (r: bool)
        ensures
            r == self@.dom().contains(k@),
    {
        self.find(k).is_some()
    }

    pub fn get(&self, k: &[u8]) -> (r: Option<&V>)
        ensures
            r is Some <==> self@.dom().contains(k@),
            r matches Some(v) ==> *v == self.value_of(k@) && v@ == self@[k@],
    {
        match self.find(k) {
            Some(i) => Some(&self.entries[i].1),
            None => None,
        }
    }

    /// `new` is `old` with the value under `k` replaced by `v`, in place.
    pub closed spec fn updated(old: Self, new: Self, k: Seq<u8>, v: V) -> bool {
        let i = old.index_of(k);
        new.entries@ == old.entries@.update(i, (old.entries@[i].0, v))
    }

    /// What an in-place update of one value does to the map.
    pub proof fn lemma_updated(old: Self, new: Self, k: Seq<u8>, v: V)
        requires
            old@.dom().contains(k),
            Self::updated(old, new, k, v),
        ensures
            new.wf() == old.wf(),
            new@ == old@.insert(k, v@),
            new.key_seq() == old.key_seq(),
            new.value_of(k) == v,
            forall|k2: Seq<u8>| k2 != k && old@.dom().contains(k2) ==> new.value_of(k2) == old.value_of(k2),
    {
        let i = old.index_of(k);
        lemma_first_index(old.key_seq(), k, 0);
        assert(new.key_seq() =~= old.key_seq());
        assert forall|k2: Seq<u8>| k2 != k && old@.dom().contains(k2) implies new.value_of(k2) == old.value_of(k2) by {
            lemma_first_index(old.key_seq(), k2, 0);
            let j = old.index_of(k2);
            if j >= 0 {
                assert(old.key_seq()[j] == k2);
            }
        }
        assert(new@ =~= old@.insert(k, v@));
    }

    /// Puts `v` under `k`, and gives back the value that was there.
    pub fn insert(&mut self, k: Vec<u8>, v: V) -> (r: Option<V>)
        ensures
            final(self)@ == old(self)@.insert(k@, v@),
            final(self).value_of(k@) == v,
            forall|k2: Seq<u8>| k2 != k@ && old(self)@.dom().contains(k2)
                ==> final(self).value_of(k2) == old(self).value_of(k2),
            r is Some <==> old(self)@.dom().contains(k@),
            r matches Some(o) ==> o == old(self).value_of(k@) && o@ == old(self)@[k@],
            final(self).key_seq() == (if old(self)@.dom().contains(k@) {
                old(self).key_seq()
            } else {
                old(self).key_seq().push(k@)
            }),
            old(self).wf() ==> final(self).wf(),
    {
        match self.find(k.as_slice()) {
            Some(i) => {
                let ghost old_self = *self;
                proof {
                    lemma_first_index(old_self.key_seq(), k@, 0);
                }
                let (kk, ov) = self.entries.remove(i);
                self.entries.insert(i, (kk, v));
                proof {
                    assert(self.entries@ =~= old_self.entries@.update(i as int, (old_self.entries@[i as int].0, v)));
                    Self::lemma_updated(old_self, *self, k@, v);
                }
                Some(ov)
            },
            None => {
                let ghost old_self = *self;
                self.entries.push((k, v));
                proof {
                    let n = old_self.entries@.len();
                    let ks = old_self.key_seq();
                    assert(self.key_seq() =~= ks.push(k@));
                    lemma_first_index(ks, k@, 0);
                    assert forall|k2: Seq<u8>| #[trigger] self.index_of(k2) == (if old_self.index_of(k2) >= 0 {
                        old_self.index_of(k2)
                    } else if k2 == k@ {
                        n as int
                    } else {
                        -1
                    }) by {
                        lemma_first_index_push(ks, k@, k2, 0);
                    }
                    assert forall|k2: Seq<u8>| k2 != k@ && old_self@.dom().contains(k2)
                        implies self.value_of(k2) == old_self.value_of(k2) by {
                        lemma_first_index(ks, k2, 0);
                        assert(self.entries@[old_self.index_of(k2)] == old_self.entries@[old_self.index_of(k2)]);
                    }
                    assert(self@ =~= old_self@.insert(k@, v@));
                    if old_self.wf() {
                        assert forall|a: int, b: int|
                            0 <= a < self.key_seq().len() && 0 <= b < self.key_seq().len() && a != b
                            implies self.key_seq()[a] != self.key_seq()[b] by {
                            if a == n {
                                assert(!ks.contains(k@));
                                assert(ks[b] == self.key_seq()[b]);
                            } else if b == n {
                                assert(!ks.contains(k@));
                                assert(ks[a] == self.key_seq()[a]);
                            } else {
                                assert(ks[a] == self.key_seq()[a]);
                                assert(ks[b] == self.key_seq()[b]);
                            }
                        }
                    }
                }
                None
            },
        }
    }

    /// The key at position `i` of `key_seq`.
    pub fn key_at(&self, i: usize) -> (r: &Vec<u8>)
        requires
            i < self.key_seq().len(),
        ensures
            r@ == self.key_seq()[i as int],
    {
        &self.entries[i].0
    }
}

impl<V: View> View for ByteMap<V> {
    type V = Map<Seq<u8>, V::V>;

    open spec fn view(&self) -> Map<Seq<u8>, V::V> {
        self.as_map()
    }
}

} // verus!
