//! A small association-list map with unique keys.
//!
//! The search keys its distance and predecessor tables by the caller's node
//! type, of which it only asks a decidable equality ([`crate::Key`]), so the
//! tables are held as flat vectors of pairs and abstracted as a `Map`.

use vstd::prelude::*;

verus! {

use crate::Key;
use vstd::pervasive::VecAdditionalExecFns;

pub struct AssocMap<K, V> {
    entries: Vec<(K, V)>,
}

impl<K, V> View for AssocMap<K, V> {
    type V = Map<K, V>;

    closed spec fn view(&self) -> Map<K, V> {
        Self::map_of(self.entries@)
    }
}

impl<K, V> AssocMap<K, V> {
    /// The mathematical map held by an entry list: later entries win.
    pub open spec fn map_of(s: Seq<(K, V)>) -> Map<K, V>
        decreases s.len(),
    {
        if s.len() == 0 {
            Map::empty()
        } else {
            Self::map_of(s.drop_last()).insert(s.last().0, s.last().1)
        }
    }

    pub open spec fn unique_keys(s: Seq<(K, V)>) -> bool {
        forall|i: int, j: int|
            0 <= i < j < s.len() ==> (#[trigger] s[i]).0 != (#[trigger] s[j]).0
    }

    /// The entry list behind the map, for callers that scan it.
    pub closed spec fn entries_seq(&self) -> Seq<(K, V)> {
        self.entries@
    }

    /// Well-formedness: no key occurs twice.
    pub closed spec fn wf(&self) -> bool {
        Self::unique_keys(self.entries@)
    }

    proof fn lemma_map_of_props(s: Seq<(K, V)>)
        requires
            Self::unique_keys(s),
        ensures
            forall|i: int|
                0 <= i < s.len() ==> Self::map_of(s).contains_key((#[trigger] s[i]).0)
                    && Self::map_of(s)[s[i].0] == s[i].1,
            forall|k: K| #[trigger]
                Self::map_of(s).contains_key(k) ==> exists|i: int|
                    0 <= i < s.len() && (#[trigger] s[i]).0 == k,
            Self::map_of(s).dom().finite(),
            Self::map_of(s).dom().len() == s.len(),
        decreases s.len(),
    {
        if s.len() == 0 {
        } else {
            let t = s.drop_last();
            assert(Self::unique_keys(t)) by {
                assert(forall|i: int| 0 <= i < t.len() ==> t[i] == s[i]);
            }
            Self::lemma_map_of_props(t);
            let lk = s.last().0;
            assert(!Self::map_of(t).contains_key(lk)) by {
                if Self::map_of(t).contains_key(lk) {
                    let i = choose|i: int| 0 <= i < t.len() && (#[trigger] t[i]).0 == lk;
                    assert(s[i] == t[i]);
                    assert(s[s.len() - 1].0 == lk);
                }
            }
            assert(Self::map_of(s).dom() =~= Self::map_of(t).dom().insert(lk));
            assert(forall|i: int| 0 <= i < s.len() - 1 ==> s[i] == t[i]);
        }
    }

    /// Relates the entry list, the map view, and the cardinality of its
    /// domain; the statement a caller needs to move between the three.
    pub proof fn lemma_view(&self)
        requires
            self.wf(),
        ensures
            forall|i: int|
                0 <= i < self.entries_seq().len() ==> self@.contains_key(
                    (#[trigger] self.entries_seq()[i]).0,
                ) && self@[self.entries_seq()[i].0] == self.entries_seq()[i].1,
            forall|k: K| #[trigger]
                self@.contains_key(k) ==> exists|i: int|
                    0 <= i < self.entries_seq().len() && (#[trigger] self.entries_seq()[i]).0 == k,
            self@.dom().finite(),
            self@.dom().len() == self.entries_seq().len(),
    {
        Self::lemma_map_of_props(self.entries@);
        assert forall|k: K| #[trigger] self@.contains_key(k) implies exists|i: int|
            0 <= i < self.entries_seq().len() && (#[trigger] self.entries_seq()[i]).0 == k by {
            let i = choose|i: int| 0 <= i < self.entries@.len() && (#[trigger] self.entries@[i]).0
                == k;
            assert(self.entries_seq()[i].0 == k);
        }
    }

    pub fn new() -> (r: Self)
        ensures
            r.wf(),
            r@ == Map::<K, V>::empty(),
            r.entries_seq() == Seq::<(K, V)>::empty(),
    {
        let r = AssocMap { entries: Vec::new() };
        proof {
            assert(r@ =~= Map::<K, V>::empty());
            assert(r.entries_seq() =~= Seq::<(K, V)>::empty());
        }
        r
    }

    pub fn len(&self) -> (r: usize)
        ensures
            r == self.entries_seq().len(),
    {
        self.entries.len()
    }

    pub fn entry_at(&self, i: usize) -> (r: &(K, V))
        requires
            i < self.entries_seq().len(),
        ensures
            *r == self.entries_seq()[i as int],
    {
        &self.entries[i]
    }
}

impl<K: Key, V> AssocMap<K, V> {
    pub fn get(&self, k: &K) -> (r: Option<&V>)
        requires
            self.wf(),
        ensures
            match r {
                Some(v) => self@.contains_key(*k) && *v == self@[*k],
                None => !self@.contains_key(*k),
            },
    {
        proof {
            self.lemma_view();
        }
        let n = self.entries.len();
        let mut i: usize = 0;
        while i < n
            invariant
                self.wf(),
                n == self.entries_seq().len(),
                i <= n,
                forall|j: int| 0 <= j < i ==> (#[trigger] self.entries_seq()[j]).0 != *k,
            decreases n - i,
        {
            let e = &self.entries[i];
            if e.0.key_eq(k) {
                proof {
                    self.lemma_view();
                    assert(self.entries_seq()[i as int].0 == *k);
                }
                return Some(&e.1);
            }
            i += 1;
        }
        None
    }

    pub fn insert(&mut self, k: K, v: V)
        requires
            old(self).wf(),
        ensures
            final(self).wf(),
            final(self)@ == old(self)@.insert(k, v),
    {
        let n = self.entries.len();
        let mut i: usize = 0;
        while i < n
            invariant
                self == old(self),
                self.wf(),
                n == self.entries_seq().len(),
                i <= n,
                forall|j: int| 0 <= j < i ==> (#[trigger] self.entries_seq()[j]).0 != k,
            decreases n - i,
        {
            if self.entries[i].0.key_eq(&k) {
                proof {
                    Self::lemma_map_of_update(self.entries@, i as int, k, v);
                }
                self.entries.set(i, (k, v));
                return ;
            }
            i += 1;
        }
        proof {
            Self::lemma_map_of_props(self.entries@);
            let s = self.entries@;
            let s2 = s.push((k, v));
            assert(s2.drop_last() =~= s);
            assert(Self::unique_keys(s2)) by {
                assert(forall|j: int| 0 <= j < s.len() ==> s2[j] == s[j]);
            }
        }
        self.entries.push((k, v));
    }

    proof fn lemma_map_of_update(s: Seq<(K, V)>, i: int, k: K, v: V)
        requires
            Self::unique_keys(s),
            0 <= i < s.len(),
            s[i].0 == k,
        ensures
            Self::unique_keys(s.update(i, (k, v))),
            Self::map_of(s.update(i, (k, v))) == Self::map_of(s).insert(k, v),
        decreases s.len(),
    {
        let s2 = s.update(i, (k, v));
        assert(Self::unique_keys(s2)) by {
            assert(forall|j: int| 0 <= j < s.len() && j != i ==> s2[j] == s[j]);
            assert(s2[i].0 == s[i].0);
        }
        let t = s.drop_last();
        let l = s.len() - 1;
        if i == l {
            assert(s2.drop_last() =~= t);
            assert(s2.last() == (k, v));
            assert(Self::map_of(s2) == Self::map_of(t).insert(k, v));
            assert(Self::map_of(t).insert(k, s[l].1).insert(k, v) =~= Self::map_of(t).insert(
                k,
                v,
            ));
        } else {
            assert(Self::unique_keys(t)) by {
                assert(forall|j: int| 0 <= j < t.len() ==> t[j] == s[j]);
            }
            Self::lemma_map_of_update(t, i, k, v);
            assert(s2.drop_last() =~= t.update(i, (k, v)));
            assert(s2.last() == s.last());
            let lk = s.last().0;
            let lv = s.last().1;
            assert(lk != k) by {
                assert(s[i].0 != s[l].0);
            }
            assert(Self::map_of(s2) == Self::map_of(t).insert(k, v).insert(lk, lv));
            assert(Self::map_of(t).insert(k, v).insert(lk, lv) =~= Self::map_of(t).insert(
                lk,
                lv,
            ).insert(k, v));
        }
    }
}

} // verus!
