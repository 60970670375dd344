//! The process-wide key-value store: a map from strings to strings whose
//! mutations report what changed, so a caller can raise change events.

use vstd::prelude::*;
use crate::path::str_eq;

verus! {

/// One binding of the store.
pub struct KvEntry {
    key: String,
    value: String,
}

/// What a mutation of the store reports: the prior value when one was
/// replaced or removed.
pub enum KvChange {
    /// The key was fresh.
    Added,
    /// The key was bound; its old value is carried.
    Replaced(String),
    /// A removal; the old value is carried when the key was bound.
    Removed(Option<String>),
}

/// The key-value store.
pub struct KvStore {
    entries: Vec<KvEntry>,
}

/// The abstract map of a binding list.
spec fn kv_map_of(entries: Seq<KvEntry>) -> Map<Seq<char>, Seq<char>>
    decreases entries.len(),
{
    if entries.len() == 0 {
        Map::<Seq<char>, Seq<char>>::empty()
    } else {
        kv_map_of(entries.drop_last()).insert(entries.last().key@, entries.last().value@)
    }
}

/// No two bindings share a key.
spec fn kv_unique(entries: Seq<KvEntry>) -> bool {
    forall|i: int, j: int| 0 <= i < j < entries.len() ==> entries[i].key@ != entries[j].key@
}

/// A key is bound exactly when some entry carries it.
proof fn lemma_kv_contains(entries: Seq<KvEntry>, k: Seq<char>)
    ensures
        kv_map_of(entries).contains_key(k) <==> exists|i: int|
            0 <= i < entries.len() && entries[i].key@ == k,
    decreases entries.len(),
{
    if entries.len() > 0 {
        lemma_kv_contains(entries.drop_last(), k);
        if entries.last().key@ == k {
            assert(entries[entries.len() - 1].key@ == k);
        } else if kv_map_of(entries).contains_key(k) {
            let i = choose|i: int| 0 <= i < entries.drop_last().len() && entries.drop_last()[i].key@
                == k;
            assert(entries[i].key@ == k);
        } else if exists|i: int| 0 <= i < entries.len() && entries[i].key@ == k {
            let i = choose|i: int| 0 <= i < entries.len() && entries[i].key@ == k;
            assert(entries.drop_last()[i].key@ == k);
        }
    }
}

/// With unique keys, the map gives each stored binding's value.
proof fn lemma_kv_index(entries: Seq<KvEntry>, i: int)
    requires
        kv_unique(entries),
        0 <= i < entries.len(),
    ensures
        kv_map_of(entries).contains_key(entries[i].key@),
        kv_map_of(entries)[entries[i].key@] == entries[i].value@,
    decreases entries.len(),
{
    if i == entries.len() - 1 {
    } else {
        lemma_kv_index(entries.drop_last(), i);
        assert(entries.drop_last()[i] == entries[i]);
        assert(entries.last().key@ != entries[i].key@);
    }
}

/// With unique keys, replacing the entry at an index updates the map.
proof fn lemma_kv_update(entries: Seq<KvEntry>, i: int, e: KvEntry)
    requires
        kv_unique(entries),
        0 <= i < entries.len(),
        e.key@ == entries[i].key@,
    ensures
        kv_map_of(entries.update(i, e)) == kv_map_of(entries).insert(e.key@, e.value@),
    decreases entries.len(),
{
    if i == entries.len() - 1 {
        assert(entries.update(i, e).drop_last() =~= entries.drop_last());
        assert(entries.update(i, e).last() == e);
        assert(kv_map_of(entries.drop_last()).insert(entries.last().key@,
            entries.last().value@).insert(e.key@, e.value@) =~= kv_map_of(
            entries.drop_last(),
        ).insert(e.key@, e.value@));
    } else {
        lemma_kv_update(entries.drop_last(), i, e);
        assert(entries.update(i, e).drop_last() =~= entries.drop_last().update(i, e));
        assert(entries.update(i, e).last() == entries.last());
        assert(entries.last().key@ != e.key@);
        assert(kv_map_of(entries.drop_last()).insert(e.key@, e.value@).insert(
            entries.last().key@,
            entries.last().value@,
        ) =~= kv_map_of(entries.drop_last()).insert(entries.last().key@,
            entries.last().value@).insert(e.key@, e.value@));
    }
}

/// With unique keys, removing the entry at an index removes its key.
proof fn lemma_kv_remove(entries: Seq<KvEntry>, i: int)
    requires
        kv_unique(entries),
        0 <= i < entries.len(),
    ensures
        kv_map_of(entries.remove(i)) == kv_map_of(entries).remove(entries[i].key@),
    decreases entries.len(),
{
    if i == entries.len() - 1 {
        assert(entries.remove(i) =~= entries.drop_last());
        lemma_kv_contains(entries.drop_last(), entries.last().key@);
        assert(forall|j: int| 0 <= j < entries.drop_last().len() ==> entries.drop_last()[j].key@
            != entries.last().key@);
        assert(!kv_map_of(entries.drop_last()).contains_key(entries.last().key@));
        assert(kv_map_of(entries.drop_last()).insert(entries.last().key@,
            entries.last().value@).remove(entries.last().key@) =~= kv_map_of(entries.drop_last()));
    } else {
        lemma_kv_remove(entries.drop_last(), i);
        assert(entries.remove(i).drop_last() =~= entries.drop_last().remove(i));
        assert(entries.remove(i).last() == entries.last());
        assert(entries.drop_last()[i] == entries[i]);
        assert(entries.last().key@ != entries[i].key@);
        assert(kv_map_of(entries.drop_last()).remove(entries[i].key@).insert(
            entries.last().key@,
            entries.last().value@,
        ) =~= kv_map_of(entries.drop_last()).insert(entries.last().key@,
            entries.last().value@).remove(entries[i].key@));
    }
}

impl KvStore {
    /// The abstract map of the store.
    pub closed spec fn view_map(self) -> Map<Seq<char>, Seq<char>> {
        kv_map_of(self.entries@)
    }

    /// The keys, in iteration order.
    pub closed spec fn key_order(self) -> Seq<Seq<char>> {
        Seq::new(self.entries@.len(), |i: int| self.entries@[i].key@)
    }

    /// Keys are unique.
    pub closed spec fn wf(self) -> bool {
        kv_unique(self.entries@)
    }

    /// An empty store.
    pub fn new() -> (r: KvStore)
        ensures
            r.wf(),
            r.view_map() == Map::<Seq<char>, Seq<char>>::empty(),
            r.key_order() == Seq::<Seq<char>>::empty(),
    {
        let r = KvStore { entries: Vec::new() };
        proof {
            assert(r.key_order() =~= Seq::<Seq<char>>::empty());
        }
        r
    }

    /// Index of a key's binding, when it is bound.
    fn find(&self, key: &str) -> (r: Option<usize>)
        requires
            self.wf(),
        ensures
            match r {
                Some(i) => {
                    &&& i < self.entries@.len()
                    &&& self.entries@[i as int].key@ == key@
                    &&& self.view_map().contains_key(key@)
                    &&& self.view_map()[key@] == self.entries@[i as int].value@
                },
                None => !self.view_map().contains_key(key@),
            },
    {
        let n = self.entries.len();
        let mut i: usize = 0;
        while i < n
            invariant
                i <= n,
                self.wf(),
                n == self.entries@.len(),
                forall|j: int| 0 <= j < i ==> self.entries@[j].key@ != key@,
            decreases n - i,
        {
            if str_eq(self.entries[i].key.as_str(), key) {
                proof {
                    lemma_kv_index(self.entries@, i as int);
                }
                return Some(i);
            }
            i += 1;
        }
        proof {
            lemma_kv_contains(self.entries@, key@);
        }
        None
    }

    /// The value bound to a key, cloned; `None` when the key is unbound.
    pub fn sab_kv_get(&self, key: &str) -> (r: Option<String>)
        requires
            self.wf(),
        ensures
            (match r {
                Some(v) => self.view_map().contains_key(key@) && v@ == self.view_map()[key@],
                None => !self.view_map().contains_key(key@),
            }),
    {
        match self.find(key) {
            Some(i) => Some(self.entries[i].value.clone()),
            None => None,
        }
    }

    /// Binds a key, reporting whether it was fresh and what it replaced.
    pub fn sab_kv_set(&mut self, key: &str, value: &str) -> (r: KvChange)
        requires
            old(self).wf(),
        ensures
            final(self).wf(),
            final(self).view_map() == old(self).view_map().insert(key@, value@),
            (match r {
                KvChange::Added => !old(self).view_map().contains_key(key@),
                KvChange::Replaced(v) => old(self).view_map().contains_key(key@) && v@ == old(
                    self,
                ).view_map()[key@],
                KvChange::Removed(v) => false,
            }),
    {
        let kv = crate::path::str_chars(key);
        let vv = crate::path::str_chars(value);
        let ks = crate::ext::chars_to_string(&kv);
        let vs = crate::ext::chars_to_string(&vv);
        match self.find(key) {
            Some(i) => {
                let ghost before = self.entries@;
                let prev = self.entries.remove(i);
                let e = KvEntry { key: ks, value: vs };
                self.entries.insert(i, e);
                proof {
                    assert(self.entries@ =~= before.update(i as int, self.entries@[i as int]));
                    lemma_kv_update(before, i as int, self.entries@[i as int]);
                }
                KvChange::Replaced(prev.value)
            },
            None => {
                let ghost before = self.entries@;
                self.entries.push(KvEntry { key: ks, value: vs });
                proof {
                    assert(self.entries@.drop_last() =~= before);
                    lemma_kv_contains(before, key@);
                }
                KvChange::Added
            },
        }
    }

    /// Unbinds a key, reporting the old value when one was bound.
    pub fn sab_kv_del(&mut self, key: &str) -> (r: KvChange)
        requires
            old(self).wf(),
        ensures
            final(self).wf(),
            final(self).view_map() == old(self).view_map().remove(key@),
            (match r {
                KvChange::Removed(v) => (match v {
                    Some(s) => old(self).view_map().contains_key(key@) && s@ == old(
                        self,
                    ).view_map()[key@],
                    None => !old(self).view_map().contains_key(key@),
                }),
                _ => false,
            }),
    {
        match self.find(key) {
            Some(i) => {
                proof {
                    lemma_kv_remove(self.entries@, i as int);
                }
                let prev = self.entries.remove(i);
                proof {
                    assert(kv_unique(self.entries@));
                }
                KvChange::Removed(Some(prev.value))
            },
            None => {
                proof {
                    assert(old(self).view_map().remove(key@) =~= old(self).view_map());
                }
                KvChange::Removed(None)
            },
        }
    }

    /// The key at an index of the iteration order, cloned.
    pub fn sab_kv_key(&self, index: usize) -> (r: Option<String>)
        requires
            self.wf(),
        ensures
            (match r {
                Some(s) => index < self.key_order().len() && s@ == self.key_order()[index as int],
                None => index >= self.key_order().len(),
            }),
    {
        if index < self.entries.len() {
            Some(self.entries[index].key.clone())
        } else {
            None
        }
    }

    /// Drops every binding.
    pub fn sab_kv_clear(&mut self)
        requires
            old(self).wf(),
        ensures
            final(self).wf(),
            final(self).view_map() == Map::<Seq<char>, Seq<char>>::empty(),
            final(self).key_order() == Seq::<Seq<char>>::empty(),
    {
        self.entries.clear();
        proof {
            assert(final(self).key_order() =~= Seq::<Seq<char>>::empty());
        }
    }

    /// How many keys are bound.
    pub fn sab_kv_length(&self) -> (r: usize)
        requires
            self.wf(),
        ensures
            r == self.key_order().len(),
    {
        self.entries.len()
    }
}

} // verus!
