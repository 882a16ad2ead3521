//! Point operations: ordered search, lookup and insertion.
//!
//! Insertion descends from the root and splits any full child *before*
//! stepping into it, so no overflow ever has to be repaired on the way back
//! up.  If the root itself is full it is first wrapped as the sole child of
//! a new empty root and split there; that is the only way the tree grows in
//! height.

use vstd::prelude::*;
use vstd::pervasive::VecAdditionalExecFns;

use crate::node::SimpleTree;
use crate::node::A;
use crate::node::B;
use crate::balance::at_mut;
use crate::balance::node_of;

verus! {

impl<V> SimpleTree<V> {
    /// The number of entries of `es` whose key is strictly below `key`,
    /// found by binary search.
    pub(crate) fn lower_bound(es: &Vec<(i64, V)>, key: i64) -> (i: usize)
        requires
            Self::entries_sorted(es@),
        ensures
            i <= es.len(),
            forall|j: int| 0 <= j < i ==> (#[trigger] es@[j]).0 < key,
            forall|j: int| i <= j < es@.len() ==> (#[trigger] es@[j]).0 >= key,
    {
        let mut lo: usize = 0;
        let mut hi: usize = es.len();
        while lo < hi
            invariant
                lo <= hi <= es.len(),
                forall|j: int| 0 <= j < lo ==> (#[trigger] es@[j]).0 < key,
                forall|j: int| hi <= j < es@.len() ==> (#[trigger] es@[j]).0 >= key,
                Self::entries_sorted(es@),
            decreases hi - lo,
        {
            let mid = lo + (hi - lo) / 2;
            if es[mid].0 < key {
                lo = mid + 1;
            } else {
                hi = mid;
            }
        }
        lo
    }

    /// Look the key up by pure descent: an ordered search at each level,
    /// stepping into the one child whose key interval admits the key.
    pub fn get(&self, key: &i64) -> (r: Option<&(i64, V)>)
        requires
            self.wf(),
        ensures
            (match r {
                Some(e) => self@.contains_key(*key) && e.0 == *key && e.1 == self@[*key],
                None => !self@.contains_key(*key),
            }),
        decreases *self,
    {
        proof {
            (*self).lemma_wf_def();
            Self::lemma_node_map(*self);
        }
        let i = Self::lower_bound(&self.entries, *key);
        if i < self.entries.len() && self.entries[i].0 == *key {
            return Some(&self.entries[i]);
        }
        proof {
            assert(!self.has_local(*key)) by {
                if self.has_local(*key) {
                    let m = choose|m: int|
                        0 <= m < self.entries@.len() && (#[trigger] self.entries@[m]).0 == *key;
                    if m < i {
                    } else {
                        assert(self.entries@[i as int].0 <= self.entries@[m].0);
                    }
                }
            }
        }
        if self.children.len() == 0 {
            None
        } else {
            proof {
                assert(self.children@[i as int].node_wf());
                self.children@[i as int].lemma_wf_def();
                assert forall|j: int|
                    0 <= j < self.children@.len() && j != i implies !(
                #[trigger] self.children@[j].as_map().contains_key(*key)) by {
                    if self.children@[j].as_map().contains_key(*key) {
                        if j < i {
                            assert(*key < self.key_at(j));
                            assert(self.entries@[j].0 <= self.entries@[i - 1].0);
                        } else {
                            assert(*key > self.key_at(j - 1));
                            assert(self.entries@[i as int].0 <= self.entries@[j - 1].0);
                        }
                    }
                }
            }
            let r = self.children[i].get(key);
            proof {
                if self.children@[i as int].as_map().contains_key(*key) {
                    assert(self@[*key] == self.children@[i as int].as_map()[*key]);
                }
            }
            r
        }
    }

    /// Insertion below the root: the node is known not to be full, and any
    /// full child is split before the descent steps into it.
    pub(crate) fn insert_rec(&mut self, key: i64, val: V)
        requires
            old(self).node_wf(),
            old(self).entries@.len() < B,
        ensures
            final(self).node_wf(),
            final(self).as_map() == old(self).as_map().insert(key, val),
            old(self).entries@.len() <= final(self).entries@.len() <= old(self).entries@.len()
                + 1,
            final(self).height() == old(self).height(),
            old(self).children@.len() == 0 ==> final(self).children@.len() == 0,
        decreases old(self).height(),
    {
        let ghost p1 = *self;
        proof {
            Self::lemma_node_map(p1);
        }
        let mut i = Self::lower_bound(&self.entries, key);
        if i < self.entries.len() && self.entries[i].0 == key {
            let ghost pm = *self;
            self.entries.set(i, (key, val));
            proof {
                Self::lemma_replace_at(pm, *self, i as int, key, val);
            }
            return ;
        }
        proof {
            assert(i < p1.entries@.len() ==> p1.key_at(i as int) > key);
        }
        if self.children.len() == 0 {
            let ghost pm = *self;
            self.entries.insert(i, (key, val));
            proof {
                Self::lemma_leaf_insert(pm, *self, i as int, key, val);
                assert(self.as_map() == p1.as_map().insert(key, val));
            }
            return ;
        }
        if self.children[i].entries.len() == B {
            proof {
                assert(node_of(self.entries, self.children) == *self);
            }
            Self::uplift(&mut self.entries, &mut self.children, i, A);
            proof {
                let pm = node_of(self.entries, self.children);
                assert(pm == *self);
                assert(pm.as_map() == p1.as_map());
                assert(pm.node_wf()) by {
                    assert forall|j: int|
                        0 <= j < self.children@.len() implies (
                    #[trigger] self.children@[j]).entries@.len() >= A by {
                        if j < i {
                            assert(self.children@[j] == p1.children@[j]);
                        } else if j > i + 1 {
                            assert(self.children@[j] == p1.children@[j - 1]);
                        }
                    }
                }
                assert(self.key_at(i as int) == p1.children@[i as int].entries@[A as int].0);
                assert(i > 0 ==> self.key_at(i as int - 1) == p1.key_at(i as int - 1));
                assert(i + 1 < self.entries@.len() ==> self.key_at(i as int + 1) == p1.key_at(
                    i as int,
                ));
            }
            let ghost pm = *self;
            if self.entries[i].0 == key {
                let ghost pm2 = *self;
                self.entries.set(i, (key, val));
                proof {
                    Self::lemma_replace_at(pm2, *self, i as int, key, val);
                    assert(self.as_map() =~= p1.as_map().insert(key, val));
                }
                return ;
            } else if self.entries[i].0 < key {
                i = i + 1;
            }
            proof {
                assert(i > 0 ==> pm.key_at(i as int - 1) < key);
                assert(i < pm.entries@.len() ==> pm.key_at(i as int) > key);
            }
        }
        let ghost pm = *self;
        proof {
            assert(pm.node_wf());
            assert(pm.as_map() == p1.as_map());
            assert(pm.height() == p1.height());
            assert(i < pm.children@.len());
            assert(pm.children@[i as int].node_wf());
            assert(pm.children@[i as int].entries@.len() < B);
            assert(pm.children@[i as int].height() + 1 == pm.height());
            assert(i > 0 ==> pm.key_at(i as int - 1) < key);
            assert(i < pm.entries@.len() ==> key < pm.key_at(i as int));
        }
        at_mut(&mut self.children, i).insert_rec(key, val);
        proof {
            let c1 = pm.children@[i as int];
            let c2 = self.children@[i as int];
            Self::lemma_child_map_insert(pm, *self, i as int, key, val);
            assert(self.node_wf()) by {
                assert forall|j: int|
                    0 <= j < self.children@.len() implies (#[trigger] self.children@[j]).node_wf()
                    && self.children@[j].height() == self.children@[0].height()
                    && self.children@[j].entries@.len() >= A by {
                    if j != i {
                        assert(self.children@[j] == pm.children@[j]);
                    }
                    assert(self.children@[0].height() == pm.children@[0].height());
                }
            }
            assert(self.height() == pm.height()) by {
                assert(self.children@[0].height() == pm.children@[0].height());
            }
        }
    }

    /// Overwriting the value at an entry whose key is already `key` turns
    /// the node's content into its old content with `key` rebound.
    proof fn lemma_replace_at(p1: Self, p2: Self, i: int, key: i64, val: V)
        requires
            p1.links_ok(),
            0 <= i < p1.entries@.len(),
            p1.entries@[i].0 == key,
            p2.entries@ == p1.entries@.update(i, (key, val)),
            p2.children@ == p1.children@,
        ensures
            p2.links_ok(),
            p2.as_map() == p1.as_map().insert(key, val),
    {
        Self::lemma_node_map(p1);
        assert(i > 0 ==> p1.key_at(i - 1) < key);
        assert(i + 1 < p1.entries@.len() ==> key < p1.key_at(i + 1));
        assert forall|k: i64|
            p1.children@.len() != 0 && #[trigger] p1.children@[i].as_map().contains_key(
                k,
            ) implies k < key by {}
        assert forall|k: i64|
            p1.children@.len() != 0 && #[trigger] p1.children@[i + 1].as_map().contains_key(
                k,
            ) implies k > key by {}
        Self::lemma_local_replace(p1, p2, i, key, val);
        assert(p1.as_map().remove(key).insert(key, val) =~= p1.as_map().insert(key, val));
    }

    /// Remove and return the entry with the greatest key under this node,
    /// descending along last children and restoring spare occupancy in each
    /// node before stepping into it.
    pub(crate) fn remove_max(&mut self) -> (r: (i64, V))
        requires
            old(self).node_wf(),
            old(self).entries@.len() > A,
        ensures
            final(self).node_wf(),
            final(self).entries@.len() >= A,
            final(self).height() == old(self).height(),
            old(self).as_map().contains_key(r.0),
            old(self).as_map()[r.0] == r.1,
            final(self).as_map() == old(self).as_map().remove(r.0),
            forall|k: i64| #[trigger] old(self).as_map().contains_key(k) ==> k <= r.0,
        decreases old(self).height(),
    {
        let ghost p1 = *self;
        proof {
            Self::lemma_node_map(p1);
        }
        if self.children.len() == 0 {
            let e = self.entries.pop().unwrap();
            proof {
                let n = p1.entries@.len() as int;
                assert(self.entries@ =~= p1.entries@.remove(n - 1));
                Self::lemma_leaf_remove(p1, *self, n - 1);
                assert(p1.as_map()[e.0] == e.1);
                assert forall|k: i64| #[trigger] p1.as_map().contains_key(k) implies k <= e.0 by {
                    let m = choose|m: int|
                        0 <= m < p1.entries@.len() && (#[trigger] p1.entries@[m]).0 == k;
                    assert(m < n - 1 ==> p1.entries@[m].0 < p1.entries@[n - 1].0);
                }
            }
            e
        } else {
            let mut ci = self.children.len() - 1;
            proof {
                assert(node_of(self.entries, self.children) == *self);
            }
            Self::borrow(&mut self.entries, &mut self.children, &mut ci);
            let ghost pm = node_of(self.entries, self.children);
            proof {
                assert(pm == *self);
                assert(pm.as_map() == p1.as_map());
                assert(ci == self.entries@.len());
                assert(ci + 1 == self.children@.len());
                assert(pm.node_wf());
                assert(pm.children@[ci as int].node_wf());
                assert(pm.children@[ci as int].height() + 1 == pm.height());
                Self::lemma_node_map(pm);
            }
            let r = at_mut(&mut self.children, ci).remove_max();
            proof {
                let c1 = pm.children@[ci as int];
                let c2 = self.children@[ci as int];
                assert(ci > 0 ==> pm.key_at(ci as int - 1) < r.0);
                Self::lemma_child_map_remove(pm, *self, ci as int, r.0);
                assert(self.node_wf()) by {
                    assert forall|j: int|
                        0 <= j < self.children@.len() implies (
                    #[trigger] self.children@[j]).node_wf() && self.children@[j].height()
                        == self.children@[0].height() && self.children@[j].entries@.len()
                        >= A by {
                        if j != ci {
                            assert(self.children@[j] == pm.children@[j]);
                        }
                        assert(self.children@[0].height() == pm.children@[0].height());
                    }
                }
                assert(self.height() == pm.height()) by {
                    assert(self.children@[0].height() == pm.children@[0].height());
                }
                assert(pm.as_map()[r.0] == c1.as_map()[r.0]);
                assert forall|k: i64| #[trigger] pm.as_map().contains_key(k) implies k <= r.0 by {
                    if pm.has_local(k) {
                        let m = choose|m: int|
                            0 <= m < pm.entries@.len() && (#[trigger] pm.entries@[m]).0 == k;
                        assert(c1.as_map().contains_key(r.0));
                        assert(r.0 > pm.key_at(ci as int - 1));
                        assert(m < ci ==> pm.entries@[m].0 <= pm.entries@[ci as int - 1].0);
                    } else {
                        let j = choose|j: int|
                            0 <= j < pm.children@.len() && (#[trigger] pm.children@[j]).as_map(
                            ).contains_key(k);
                        if j < ci {
                            assert(k < pm.key_at(j));
                            assert(c1.as_map().contains_key(r.0));
                            assert(r.0 > pm.key_at(ci as int - 1));
                            assert(pm.entries@[j].0 <= pm.entries@[ci as int - 1].0);
                        }
                    }
                }
            }
            r
        }
    }

    /// Replace the separator entry at `i` by the greatest entry of the
    /// subtree to its left: the in-order predecessor of the separator's
    /// key.  The displaced separator entry is returned; the node's content
    /// loses exactly that entry's key.
    #[verifier::rlimit(100)]
    fn remove_sep(&mut self, i: usize) -> (r: (i64, V))
        requires
            old(self).node_wf(),
            old(self).children@.len() != 0,
            i < old(self).entries@.len(),
            old(self).children@[i as int].entries@.len() > A,
        ensures
            final(self).node_wf(),
            final(self).entries@.len() == old(self).entries@.len(),
            final(self).children@.len() == old(self).children@.len(),
            final(self).height() == old(self).height(),
            r == old(self).entries@[i as int],
            final(self).as_map() == old(self).as_map().remove(r.0),
    {
        let ghost pm = *self;
        proof {
            Self::lemma_node_map(pm);
            assert(pm.children@[i as int].node_wf());
            assert(pm.children@[i as int].height() + 1 == pm.height());
        }
        let (pk, pv) = at_mut(&mut self.children, i).remove_max();
        let ghost pm2 = node_of(self.entries, self.children);
        proof {
            let c1 = pm.children@[i as int];
            assert(pm2 == *self);
            assert(c1.as_map().contains_key(pk));
            assert(i > 0 ==> pm.key_at(i - 1) < pk);
            assert(pk < pm.key_at(i as int));
            Self::lemma_child_map_remove(pm, pm2, i as int, pk);
        }
        let old_entry = self.entries.remove(i);
        self.entries.insert(i, (pk, pv));
        proof {
            let key = pm.entries@[i as int].0;
            let p3 = node_of(self.entries, self.children);
            assert(p3 == *self);
            assert(p3.entries@ =~= pm2.entries@.update(i as int, (pk, pv)));
            let c1 = pm.children@[i as int];
            let c2 = pm2.children@[i as int];
            assert forall|k: i64|
                pm2.children@.len() != 0 && #[trigger] pm2.children@[i as int].as_map(
                ).contains_key(k) implies k < pk by {
                assert(c1.as_map().contains_key(k) && k != pk);
                assert(k <= pk);
            }
            assert forall|k: i64|
                pm2.children@.len() != 0 && #[trigger] pm2.children@[i + 1].as_map(
                ).contains_key(k) implies k > pk by {
                assert(pm.children@[i + 1].as_map().contains_key(k));
                assert(k > pm.key_at(i as int));
            }
            assert(i > 0 ==> pm2.key_at(i - 1) < pk);
            assert(i + 1 < pm2.entries@.len() ==> pk < pm2.key_at(i + 1)) by {
                assert(i + 1 < pm.entries@.len() ==> pm.key_at(i as int) < pm.key_at(i + 1));
            }
            Self::lemma_local_replace(pm2, p3, i as int, pk, pv);
            // Content: the separator key is gone, its predecessor is back
            // with its old value, everything else is untouched.
            assert(pm.as_map()[pk] == c1.as_map()[pk]);
            assert(p3.as_map() =~= pm.as_map().remove(key)) by {
                assert(pm2.entries@[i as int].0 == key);
                assert(pk != key);
                assert(p3.as_map() == pm2.as_map().remove(key).insert(pk, pv));
                assert(pm2.as_map() == pm.as_map().remove(pk));
            }
            assert(p3.node_wf()) by {
                assert forall|j: int|
                    0 <= j < p3.children@.len() implies (#[trigger] p3.children@[j]).node_wf()
                    && p3.children@[j].height() == p3.children@[0].height()
                    && p3.children@[j].entries@.len() >= A by {
                    if j != i {
                        assert(p3.children@[j] == pm.children@[j]);
                    }
                    assert(p3.children@[0].height() == pm.children@[0].height());
                }
            }
            assert(self.height() == pm.height()) by {
                assert(self.children@[0].height() == pm.children@[0].height());
            }
            assert(old_entry == pm.entries@[i as int]);
        }
        old_entry
    }

    /// Deletion below the root: the node either holds the key as a
    /// separator, in which case the separator is replaced by its in-order
    /// predecessor pulled out of the left subtree, or the search descends
    /// into the one child whose interval admits the key, after restoring
    /// that child's spare occupancy.  An internal root whose last entry was
    /// merged away collapses into its sole child.
    #[verifier::rlimit(100)]
    pub(crate) fn remove_rec(&mut self, key: i64) -> (r: Option<(i64, V)>)
        requires
            old(self).node_wf(),
            old(self).children@.len() != 0 ==> old(self).entries@.len() >= 1,
        ensures
            final(self).node_wf(),
            final(self).children@.len() != 0 ==> final(self).entries@.len() >= 1,
            final(self).as_map() == old(self).as_map().remove(key),
            (match r {
                Some(e) => old(self).as_map().contains_key(key) && e.0 == key
                    && e.1 == old(self).as_map()[key],
                None => !old(self).as_map().contains_key(key),
            }),
            final(self).entries@.len() + 1 >= old(self).entries@.len(),
            old(self).entries@.len() >= 2 ==> final(self).height() == old(self).height(),
            old(self).children@.len() == 0 ==> final(self).children@.len() == 0
                && final(self).height() == old(self).height(),
        decreases old(self).height(),
    {
        let ghost p1 = *self;
        proof {
            Self::lemma_node_map(p1);
        }
        if self.children.len() == 0 {
            let i = Self::lower_bound(&self.entries, key);
            if i < self.entries.len() && self.entries[i].0 == key {
                let e = self.entries.remove(i);
                proof {
                    Self::lemma_leaf_remove(p1, *self, i as int);
                    assert(p1.as_map()[key] == e.1);
                }
                Some(e)
            } else {
                proof {
                    assert(!p1.as_map().contains_key(key)) by {
                        if p1.has_local(key) {
                            let m = choose|m: int|
                                0 <= m < p1.entries@.len() && (#[trigger] p1.entries@[m]).0
                                    == key;
                            if m >= i {
                                assert(p1.entries@[i as int].0 <= p1.entries@[m].0);
                            }
                        }
                    }
                    assert(p1.as_map().remove(key) =~= p1.as_map());
                }
                None
            }
        } else {
            let mut i = Self::lower_bound(&self.entries, key);
            let ghost i0 = i as int;
            proof {
                assert(node_of(self.entries, self.children) == *self);
            }
            Self::borrow(&mut self.entries, &mut self.children, &mut i);
            let ghost pm = node_of(self.entries, self.children);
            proof {
                assert(pm == *self);
                assert(pm.as_map() == p1.as_map());
                assert(pm.node_wf());
                Self::lemma_node_map(pm);
                // The key, if present at all, now lives in slot `i`: as the
                // separator entry there or inside the child there.
                assert forall|m: int|
                    0 <= m < pm.entries@.len() && m != i implies (#[trigger] pm.entries@[m]).0
                    != key by {
                    if m < i {
                        assert(pm.entries@[m].0 <= pm.entries@[i - 1].0);
                        assert(pm.key_at(i - 1) <= p1.key_at(i0 - 1));
                        assert(p1.key_at(i0 - 1) < key);
                    } else {
                        assert(i < pm.entries@.len());
                        assert(pm.key_at(i as int) >= p1.key_at(i0));
                        assert(p1.key_at(i0) >= key);
                        assert(pm.entries@[m].0 >= pm.entries@[i as int].0);
                        assert(pm.entries@[m].0 > pm.entries@[i as int].0);
                    }
                }
                assert forall|j: int|
                    0 <= j < pm.children@.len() && j != i implies !(
                #[trigger] pm.children@[j].as_map().contains_key(key)) by {
                    if pm.children@[j].as_map().contains_key(key) {
                        if j < i {
                            assert(key < pm.key_at(j));
                            assert(pm.entries@[j].0 <= pm.entries@[i - 1].0);
                            assert(pm.key_at(i - 1) <= p1.key_at(i0 - 1));
                        } else {
                            assert(key > pm.key_at(j - 1));
                            assert(i < pm.entries@.len());
                            assert(pm.key_at(i as int) >= p1.key_at(i0));
                            assert(pm.entries@[i as int].0 <= pm.entries@[j - 1].0);
                        }
                    }
                }
            }
            if i < self.entries.len() && self.entries[i].0 == key {
                let old_entry = self.remove_sep(i);
                proof {
                    assert(old_entry == pm.entries@[i as int]);
                    assert(pm.as_map()[key] == pm.entries@[i as int].1);
                }
                Some(old_entry)
            } else if self.entries.len() == 0 {
                proof {
                    assert(self.children@.len() == 1);
                    assert(pm.children@[0].node_wf());
                    pm.lemma_as_map_def();
                    assert(Self::kids_map(pm.children@, 1) =~= Map::<i64, V>::empty());
                    assert(Self::entry_map(pm.entries@) =~= Map::<i64, V>::empty());
                    assert(pm.as_map() =~= pm.children@[0].as_map());
                    assert(pm.height() == pm.children@[0].height() + 1);
                }
                let child = self.children.remove(0);
                *self = child;
                let r = self.remove_rec(key);
                proof {
                    assert(p1.entries@.len() <= 1);
                }
                r
            } else {
                proof {
                    assert(pm.children@[i as int].node_wf());
                    assert(pm.children@[i as int].entries@.len() > A);
                    assert(pm.children@[i as int].height() + 1 == pm.height());
                    assert(i > 0 ==> pm.key_at(i - 1) < key);
                    assert(i < pm.entries@.len() ==> key < pm.key_at(i as int)) by {
                        if i < pm.entries@.len() {
                            assert(pm.key_at(i as int) >= p1.key_at(i0) >= key);
                            assert(pm.entries@[i as int].0 != key);
                        }
                    }
                }
                let r = at_mut(&mut self.children, i).remove_rec(key);
                proof {
                    let c1 = pm.children@[i as int];
                    let c2 = self.children@[i as int];
                    Self::lemma_child_map_remove(pm, *self, i as int, key);
                    assert(self.node_wf()) by {
                        assert forall|j: int|
                            0 <= j < self.children@.len() implies (
                        #[trigger] self.children@[j]).node_wf() && self.children@[j].height()
                            == self.children@[0].height() && self.children@[j].entries@.len()
                            >= A by {
                            if j != i {
                                assert(self.children@[j] == pm.children@[j]);
                            }
                            assert(self.children@[0].height() == pm.children@[0].height());
                        }
                    }
                    assert(self.height() == pm.height()) by {
                        assert(self.children@[0].height() == pm.children@[0].height());
                    }
                    // The key was present in the node exactly when it was
                    // present in the child that was descended into.
                    assert(p1.as_map().contains_key(key) <==> c1.as_map().contains_key(key));
                    if c1.as_map().contains_key(key) {
                        assert(p1.as_map()[key] == c1.as_map()[key]);
                    }
                }
                r
            }
        }
    }

    /// Delete `key` and return its entry, or nothing when the key is
    /// absent — a normal outcome, not a failure.  A root left without
    /// entries by a merge is collapsed into its sole child; that is the
    /// only way the tree loses height.
    pub fn remove(&mut self, key: &i64) -> (r: Option<(i64, V)>)
        requires
            old(self).wf(),
        ensures
            final(self).wf(),
            final(self)@ == old(self)@.remove(*key),
            (match r {
                Some(e) => old(self)@.contains_key(*key) && e.0 == *key
                    && e.1 == old(self)@[*key],
                None => !old(self)@.contains_key(*key),
            }),
    {
        proof {
            (*old(self)).lemma_wf_def();
        }
        let r = self.remove_rec(*key);
        proof {
            (*self).lemma_wf_def();
        }
        r
    }

    /// Upsert: bind `key` to `val`, overwriting any value the key had.
    /// Never fails; a full root is first wrapped and split, the only step
    /// that makes the tree taller.
    pub fn insert(&mut self, key: i64, val: V)
        requires
            old(self).wf(),
        ensures
            final(self).wf(),
            final(self)@ == old(self)@.insert(key, val),
    {
        let ghost p0 = *self;
        proof {
            p0.lemma_wf_def();
        }
        if self.entries.len() == B {
            let mut tmp = SimpleTree { entries: Vec::new(), children: Vec::new() };
            core::mem::swap(self, &mut tmp);
            self.children.push(tmp);
            proof {
                let w = *self;
                assert(w.entries@.len() == 0 && w.children@.len() == 1 && w.children@[0] == p0);
                assert(w.frame_wf());
                assert(w.as_map() =~= p0.as_map()) by {
                    w.lemma_as_map_def();
                    assert(Self::kids_map(w.children@, 1) =~= Map::<i64, V>::empty());
                    assert(Self::entry_map(w.entries@) =~= Map::<i64, V>::empty());
                }
                assert(node_of(self.entries, self.children) == w);
            }
            Self::uplift(&mut self.entries, &mut self.children, 0, A);
            proof {
                let w = node_of(self.entries, self.children);
                assert(w == *self);
                assert(w.as_map() == p0.as_map());
                assert(w.node_wf()) by {
                    assert(self.children@[0].entries@.len() == A);
                    assert(self.children@[1].entries@.len() == B - A - 1);
                }
                assert(w.entries@.len() == 1);
            }
        }
        self.insert_rec(key, val);
        proof {
            (*self).lemma_wf_def();
            assert(self.wf());
        }
    }
}

} // verus!
