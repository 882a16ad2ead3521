//! The recursive node type and its mathematical model.
//!
//! A node holds an ascending run of key-value entries and, if it is
//! internal, one more child subtree than it has entries.  The whole tree is
//! one node value; the root is structurally identical to any other node.
//!
//! The model of a node is a `Map<i64, V>` (`as_map`), and the structural
//! invariant (`wf`) states sortedness, separation of the children's key
//! ranges, the child-count law, bounded occupancy and equal leaf depth.

use vstd::prelude::*;

verus! {

/// Minimum entry count for any non-root node.
pub const A: usize = 11;

/// Entry count at which a node is split before it is descended into.
/// A node never exceeds `B` entries.
pub const B: usize = 2 * A + 1;

/// A balanced multiway search tree mapping `i64` keys to values of type `V`.
///
/// The empty `children` vector marks a leaf; an internal node holds exactly
/// `entries.len() + 1` children.
#[derive(Debug)]
pub struct SimpleTree<V> {
    pub(crate) entries: Vec<(i64, V)>,
    pub(crate) children: Vec<SimpleTree<V>>,
}

impl<V> SimpleTree<V> {
    /// The key of the entry at position `i` of this node.
    pub(crate) open spec fn key_at(self, i: int) -> i64 {
        self.entries@[i].0
    }

    /// Entry keys of a single node run strictly ascending.
    pub(crate) open spec fn entries_sorted(es: Seq<(i64, V)>) -> bool {
        forall|i: int, j: int| #![trigger es[i], es[j]] 0 <= i < j < es.len() ==> es[i].0 < es[j].0
    }

    /// The map holding exactly the entries of the sequence `es`.
    pub(crate) open spec fn entry_map(es: Seq<(i64, V)>) -> Map<i64, V>
        decreases es.len(),
    {
        if es.len() <= 0 {
            Map::empty()
        } else {
            Self::entry_map(es.drop_last()).insert(es.last().0, es.last().1)
        }
    }

    /// Distance from this node down to its leaves.  The structural invariant
    /// forces every child of a node to have the same height, so this is the
    /// depth of every leaf under the node.
    pub(crate) open spec fn height(self) -> nat
        decreases self,
    {
        if self.children.len() == 0 {
            0
        } else {
            1 + self.children@[0].height()
        }
    }

    /// Union of the maps of the subtrees `cs[i..]`.
    pub(crate) open spec fn kids_map(cs: Seq<SimpleTree<V>>, i: int) -> Map<i64, V>
        decreases cs, cs.len() - i,
    {
        if i < 0 || i >= cs.len() {
            Map::empty()
        } else {
            cs[i].as_map().union_prefer_right(Self::kids_map(cs, i + 1))
        }
    }

    /// The mathematical content of the subtree rooted at this node: every
    /// key bound anywhere under it, with its value.
    pub closed spec fn as_map(self) -> Map<i64, V>
        decreases self, 0int,
    {
        Self::entry_map(self.entries@).union_prefer_right(Self::kids_map(self.children@, 0))
    }

    /// The purely local laws of one node: entries ascend, an internal node
    /// has one more child than it has entries, and child `i` holds only keys
    /// strictly between the neighbouring entry keys.
    pub(crate) open spec fn links_ok(self) -> bool {
        &&& Self::entries_sorted(self.entries@)
        &&& (self.children.len() != 0 ==> self.children@.len() == self.entries@.len() + 1)
        &&& (forall|i: int, k: i64|
            0 <= i < self.children@.len() && #[trigger] self.children@[i].as_map().contains_key(k)
                ==> (i > 0 ==> self.key_at(i - 1) < k) && (i < self.entries@.len() ==> k
                < self.key_at(i)))
    }

    /// Everything `node_wf` asks of a node except the occupancy floor of its
    /// children.  Split and merge pass through states in which one child is
    /// under the floor; this is the invariant that survives those states.
    pub(crate) open spec fn frame_wf(self) -> bool
        decreases self, 0int,
    {
        &&& self.links_ok()
        &&& (forall|i: int|
            0 <= i < self.children@.len() ==> (#[trigger] self.children@[i]).node_wf())
        &&& (forall|i: int|
            0 <= i < self.children@.len() ==> (#[trigger] self.children@[i]).height()
                == self.children@[0].height())
    }

    /// The full structural invariant of a node, except that its own entry
    /// count has no floor: the floor of each node is demanded by its parent,
    /// which leaves the root exempt, as it must be.
    pub(crate) open spec fn node_wf(self) -> bool
        decreases self, 1int,
    {
        &&& self.frame_wf()
        &&& self.entries@.len() <= B
        &&& (forall|i: int|
            0 <= i < self.children@.len() ==> (#[trigger] self.children@[i]).entries@.len() >= A)
    }

    /// The invariant of a whole tree: structurally well formed, and an
    /// internal root keeps at least one entry (an empty internal root is
    /// collapsed into its sole child as soon as it arises).
    pub closed spec fn wf(self) -> bool {
        &&& self.node_wf()
        &&& (self.children.len() != 0 ==> self.entries@.len() >= 1)
    }
}

impl<V> SimpleTree<V> {
    /// What `wf` says, for use by the sibling modules that implement the
    /// operations: the structural invariant plus the root clause.
    pub(crate) proof fn lemma_wf_def(self)
        ensures
            self.wf() <==> (self.node_wf() && (self.children@.len() != 0
                ==> self.entries@.len() >= 1)),
    {
    }

    /// What `as_map` says, for use by the sibling modules.
    pub(crate) proof fn lemma_as_map_def(self)
        ensures
            self.as_map() == Self::entry_map(self.entries@).union_prefer_right(
                Self::kids_map(self.children@, 0),
            ),
    {
    }

    /// Whether one of this node's own entries carries key `k`.
    pub(crate) open spec fn has_local(self, k: i64) -> bool {
        exists|i: int| 0 <= i < self.entries@.len() && (#[trigger] self.entries@[i]).0 == k
    }

    /// Whether some child subtree of this node holds key `k`.
    pub(crate) open spec fn has_in_child(self, k: i64) -> bool {
        exists|i: int|
            0 <= i < self.children@.len() && (#[trigger] self.children@[i]).as_map().contains_key(k)
    }

    /// `entry_map` holds exactly the entries of its sequence, keyed by the
    /// entry keys, as long as those keys are distinct.
    pub(crate) proof fn lemma_entry_map_mem(es: Seq<(i64, V)>)
        requires
            forall|i: int, j: int|
                #![trigger es[i], es[j]]
                0 <= i < j < es.len() ==> es[i].0 != es[j].0,
        ensures
            forall|i: int|
                0 <= i < es.len() ==> Self::entry_map(es).contains_key((#[trigger] es[i]).0)
                    && Self::entry_map(es)[es[i].0] == es[i].1,
            forall|k: i64|
                #[trigger] Self::entry_map(es).contains_key(k) ==> exists|i: int|
                    0 <= i < es.len() && (#[trigger] es[i]).0 == k,
        decreases es.len(),
    {
        if es.len() > 0 {
            let pre = es.drop_last();
            Self::lemma_entry_map_mem(pre);
            assert forall|k: i64| #[trigger]
                Self::entry_map(es).contains_key(k) implies exists|i: int|
                0 <= i < es.len() && (#[trigger] es[i]).0 == k by {
                if k == es.last().0 {
                    assert(es[es.len() - 1].0 == k);
                } else {
                    assert(Self::entry_map(pre).contains_key(k));
                    let i = choose|i: int| 0 <= i < pre.len() && (#[trigger] pre[i]).0 == k;
                    assert(es[i].0 == k);
                }
            }
            assert forall|i: int| 0 <= i < es.len() implies Self::entry_map(es).contains_key(
                (#[trigger] es[i]).0,
            ) && Self::entry_map(es)[es[i].0] == es[i].1 by {
                if i < es.len() - 1 {
                    assert(pre[i] == es[i]);
                    assert(es[i].0 != es.last().0);
                }
            }
        }
    }

    /// `kids_map` holds exactly the keys of the subtrees it unites, with the
    /// values they carry there, as long as those subtrees are key-disjoint.
    pub(crate) proof fn lemma_kids_map_mem(cs: Seq<SimpleTree<V>>, i: int)
        requires
            0 <= i,
            forall|j1: int, j2: int, k: i64|
                0 <= j1 < j2 < cs.len() && #[trigger] cs[j1].as_map().contains_key(k) ==> !(
                #[trigger] cs[j2].as_map().contains_key(k)),
        ensures
            forall|k: i64|
                #[trigger] Self::kids_map(cs, i).contains_key(k) ==> exists|j: int|
                    i <= j < cs.len() && (#[trigger] cs[j]).as_map().contains_key(k),
            forall|j: int, k: i64|
                i <= j < cs.len() && #[trigger] cs[j].as_map().contains_key(k) ==> Self::kids_map(
                    cs,
                    i,
                ).contains_key(k) && Self::kids_map(cs, i)[k] == cs[j].as_map()[k],
        decreases cs.len() - i,
    {
        if i < cs.len() {
            Self::lemma_kids_map_mem(cs, i + 1);
            let rest = Self::kids_map(cs, i + 1);
            assert forall|j: int, k: i64|
                i <= j < cs.len() && #[trigger] cs[j].as_map().contains_key(
                    k,
                ) implies Self::kids_map(cs, i).contains_key(k) && Self::kids_map(cs, i)[k]
                == cs[j].as_map()[k] by {
                if j == i {
                    if rest.contains_key(k) {
                        let j2 = choose|j2: int|
                            i + 1 <= j2 < cs.len() && (#[trigger] cs[j2]).as_map().contains_key(k);
                        assert(false);
                    }
                }
            }
        }
    }

    /// The content of a locally well-linked node is exactly its own entries
    /// together with the contents of its children; the children are pairwise
    /// key-disjoint and none repeats a local key.
    pub(crate) proof fn lemma_node_map(t: SimpleTree<V>)
        requires
            t.links_ok(),
        ensures
            forall|j1: int, j2: int, k: i64|
                0 <= j1 < j2 < t.children@.len() && #[trigger] t.children@[j1].as_map().contains_key(
                    k,
                ) ==> !(#[trigger] t.children@[j2].as_map().contains_key(k)),
            forall|i: int, k: i64|
                0 <= i < t.children@.len() && #[trigger] t.children@[i].as_map().contains_key(k)
                    ==> !t.has_local(k),
            forall|k: i64| #[trigger] t.as_map().contains_key(k) <==> t.has_local(k)
                || t.has_in_child(k),
            forall|i: int|
                0 <= i < t.entries@.len() ==> t.as_map().contains_key((#[trigger] t.entries@[i]).0)
                    && t.as_map()[t.entries@[i].0] == t.entries@[i].1,
            forall|i: int, k: i64|
                0 <= i < t.children@.len() && #[trigger] t.children@[i].as_map().contains_key(k)
                    ==> t.as_map().contains_key(k) && t.as_map()[k] == t.children@[i].as_map()[k],
    {
        let es = t.entries@;
        let cs = t.children@;
        assert forall|j1: int, j2: int, k: i64|
            0 <= j1 < j2 < cs.len() && #[trigger] cs[j1].as_map().contains_key(k) implies !(
        #[trigger] cs[j2].as_map().contains_key(k)) by {
            if cs[j2].as_map().contains_key(k) {
                assert(k < t.key_at(j1));
                assert(k > t.key_at(j2 - 1));
                assert(es[j1].0 <= es[j2 - 1].0);
                assert(false);
            }
        }
        assert forall|i: int, k: i64|
            0 <= i < cs.len() && #[trigger] cs[i].as_map().contains_key(k) implies !t.has_local(
            k,
        ) by {
            if t.has_local(k) {
                let m = choose|m: int| 0 <= m < es.len() && (#[trigger] es[m]).0 == k;
                if i <= m {
                    assert(k < t.key_at(i));
                    assert(es[i].0 <= es[m].0);
                } else {
                    assert(k > t.key_at(i - 1));
                    assert(es[m].0 <= es[i - 1].0);
                }
                assert(false);
            }
        }
        assert forall|i: int, j: int| 0 <= i < j < es.len() implies es[i].0 != es[j].0 by {
            assert(es[i].0 < es[j].0);
        }
        Self::lemma_entry_map_mem(es);
        Self::lemma_kids_map_mem(cs, 0);
        let em = Self::entry_map(es);
        let km = Self::kids_map(cs, 0);
        assert forall|k: i64| #[trigger]
            t.as_map().contains_key(k) implies t.has_local(k) || t.has_in_child(k) by {
            if km.contains_key(k) {
                assert(t.has_in_child(k));
            } else {
                assert(em.contains_key(k));
            }
        }
        assert forall|k: i64| t.has_local(k) || t.has_in_child(k) implies #[trigger]
            t.as_map().contains_key(k) by {
            if t.has_in_child(k) {
                let i = choose|i: int|
                    0 <= i < cs.len() && (#[trigger] cs[i]).as_map().contains_key(k);
                assert(km.contains_key(k));
            } else {
                let m = choose|m: int| 0 <= m < es.len() && (#[trigger] es[m]).0 == k;
                assert(em.contains_key(k));
            }
        }
        assert forall|i: int| 0 <= i < es.len() implies t.as_map().contains_key(
            (#[trigger] es[i]).0,
        ) && t.as_map()[es[i].0] == es[i].1 by {
            let k = es[i].0;
            assert(t.has_local(k));
            assert(em.contains_key(k) && em[k] == es[i].1);
            if km.contains_key(k) {
                assert(t.has_in_child(k));
                assert(false);
            }
        }
        assert forall|i: int, k: i64|
            0 <= i < cs.len() && #[trigger] cs[i].as_map().contains_key(k) implies t.as_map(
        ).contains_key(k) && t.as_map()[k] == cs[i].as_map()[k] by {
            assert(km.contains_key(k) && km[k] == cs[i].as_map()[k]);
        }
    }
}

impl<V> SimpleTree<V> {
    /// Replacing the entry at `i` with one whose key still lies strictly
    /// between the keys of the surrounding subtrees removes the old key and
    /// binds the new one.
    pub(crate) proof fn lemma_local_replace(p1: Self, p2: Self, i: int, nk: i64, nv: V)
        requires
            p1.links_ok(),
            0 <= i < p1.entries@.len(),
            p2.entries@ == p1.entries@.update(i, (nk, nv)),
            p2.children@ == p1.children@,
            i > 0 ==> p1.key_at(i - 1) < nk,
            i + 1 < p1.entries@.len() ==> nk < p1.key_at(i + 1),
            forall|k: i64|
                p1.children@.len() != 0 && #[trigger] p1.children@[i].as_map().contains_key(k)
                    ==> k < nk,
            forall|k: i64|
                p1.children@.len() != 0 && #[trigger] p1.children@[i + 1].as_map().contains_key(k)
                    ==> k > nk,
        ensures
            p2.links_ok(),
            p2.as_map() == p1.as_map().remove(p1.entries@[i].0).insert(nk, nv),
    {
        let ok = p1.entries@[i].0;
        Self::lemma_node_map(p1);
        assert(p2.links_ok()) by {
            assert forall|m: int, j: int|
                #![trigger p2.entries@[m], p2.entries@[j]]
                0 <= m < j < p2.entries@.len() implies p2.entries@[m].0 < p2.entries@[j].0 by {
                assert(p1.entries@[m].0 < p1.entries@[j].0 || m == i || j == i);
            }
            assert forall|j: int, k: i64|
                0 <= j < p2.children@.len() && #[trigger] p2.children@[j].as_map().contains_key(
                    k,
                ) implies (j > 0 ==> p2.key_at(j - 1) < k) && (j < p2.entries@.len() ==> k
                < p2.key_at(j)) by {
                assert(p1.children@[j].as_map().contains_key(k));
            }
        }
        Self::lemma_node_map(p2);
        let m1 = p1.as_map().remove(ok).insert(nk, nv);
        assert forall|k: i64| #[trigger] p2.as_map().contains_key(k) implies m1.contains_key(k)
            && m1[k] == p2.as_map()[k] by {
            if p2.has_local(k) {
                let m = choose|m: int|
                    0 <= m < p2.entries@.len() && (#[trigger] p2.entries@[m]).0 == k;
                assert(p2.as_map()[k] == p2.entries@[m].1);
                if m == i {
                    assert(k == nk);
                } else {
                    assert(p1.entries@[m].0 == k);
                    assert(k != nk) by {
                        if m < i {
                            assert(p1.entries@[m].0 <= p1.entries@[i - 1].0);
                        } else {
                            assert(p1.entries@[i + 1].0 <= p1.entries@[m].0);
                        }
                    }
                    assert(k != ok);
                    assert(p1.as_map()[k] == p1.entries@[m].1);
                }
            } else {
                let j = choose|j: int|
                    0 <= j < p2.children@.len() && (#[trigger] p2.children@[j]).as_map(
                    ).contains_key(k);
                assert(p1.children@[j].as_map().contains_key(k));
                assert(p1.as_map()[k] == p1.children@[j].as_map()[k]);
                assert(k != ok) by {
                    assert(!p1.has_local(k));
                }
                assert(k != nk) by {
                    if j <= i {
                        if j < i {
                            assert(k < p1.key_at(j));
                            assert(p1.entries@[j].0 <= p1.entries@[i - 1].0);
                        }
                    } else {
                        if j > i + 1 {
                            assert(k > p1.key_at(j - 1));
                            assert(p1.entries@[i + 1].0 <= p1.entries@[j - 1].0);
                        }
                    }
                }
                assert(p2.as_map()[k] == p2.children@[j].as_map()[k]);
            }
        }
        assert forall|k: i64| #[trigger] m1.contains_key(k) implies p2.as_map().contains_key(
            k,
        ) by {
            if k == nk {
                assert(p2.entries@[i].0 == nk);
            } else {
                assert(p1.as_map().contains_key(k) && k != ok);
                if p1.has_local(k) {
                    let m = choose|m: int|
                        0 <= m < p1.entries@.len() && (#[trigger] p1.entries@[m]).0 == k;
                    assert(m != i);
                    assert(p2.entries@[m].0 == k);
                } else {
                    let j = choose|j: int|
                        0 <= j < p1.children@.len() && (#[trigger] p1.children@[j]).as_map(
                        ).contains_key(k);
                    assert(p2.children@[j].as_map().contains_key(k));
                }
            }
        }
        assert(p2.as_map() =~= m1);
    }

    /// Inserting an entry into a leaf at its sorted position binds its key.
    pub(crate) proof fn lemma_leaf_insert(p1: Self, p2: Self, i: int, key: i64, val: V)
        requires
            p1.links_ok(),
            p1.children@.len() == 0,
            p2.children@.len() == 0,
            0 <= i <= p1.entries@.len(),
            p2.entries@ == p1.entries@.insert(i, (key, val)),
            forall|j: int| 0 <= j < i ==> (#[trigger] p1.entries@[j]).0 < key,
            forall|j: int| i <= j < p1.entries@.len() ==> (#[trigger] p1.entries@[j]).0 > key,
        ensures
            p2.links_ok(),
            p2.as_map() == p1.as_map().insert(key, val),
    {
        Self::lemma_node_map(p1);
        assert(p2.links_ok()) by {
            assert forall|m: int, j: int|
                #![trigger p2.entries@[m], p2.entries@[j]]
                0 <= m < j < p2.entries@.len() implies p2.entries@[m].0 < p2.entries@[j].0 by {}
        }
        Self::lemma_node_map(p2);
        let m1 = p1.as_map().insert(key, val);
        assert forall|k: i64| #[trigger] p2.as_map().contains_key(k) implies m1.contains_key(k)
            && m1[k] == p2.as_map()[k] by {
            let m = choose|m: int|
                0 <= m < p2.entries@.len() && (#[trigger] p2.entries@[m]).0 == k;
            assert(p2.as_map()[k] == p2.entries@[m].1);
            if m != i {
                let n = if m < i {
                    m
                } else {
                    m - 1
                };
                assert(p1.entries@[n] == p2.entries@[m]);
                assert(p1.as_map()[k] == p1.entries@[n].1);
            }
        }
        assert forall|k: i64| #[trigger] m1.contains_key(k) implies p2.as_map().contains_key(
            k,
        ) by {
            if k == key {
                assert(p2.entries@[i].0 == key);
            } else {
                let m = choose|m: int|
                    0 <= m < p1.entries@.len() && (#[trigger] p1.entries@[m]).0 == k;
                let n = if m < i {
                    m
                } else {
                    m + 1
                };
                assert(p2.entries@[n].0 == k);
            }
        }
        assert(p2.as_map() =~= m1);
    }

    /// Removing the entry at `i` from a leaf unbinds exactly its key.
    pub(crate) proof fn lemma_leaf_remove(p1: Self, p2: Self, i: int)
        requires
            p1.links_ok(),
            p1.children@.len() == 0,
            p2.children@.len() == 0,
            0 <= i < p1.entries@.len(),
            p2.entries@ == p1.entries@.remove(i),
        ensures
            p2.links_ok(),
            p2.as_map() == p1.as_map().remove(p1.entries@[i].0),
    {
        let ok = p1.entries@[i].0;
        Self::lemma_node_map(p1);
        assert(p2.links_ok()) by {
            assert forall|m: int, j: int|
                #![trigger p2.entries@[m], p2.entries@[j]]
                0 <= m < j < p2.entries@.len() implies p2.entries@[m].0 < p2.entries@[j].0 by {}
        }
        Self::lemma_node_map(p2);
        let m1 = p1.as_map().remove(ok);
        assert forall|k: i64| #[trigger] p2.as_map().contains_key(k) implies m1.contains_key(k)
            && m1[k] == p2.as_map()[k] by {
            let m = choose|m: int|
                0 <= m < p2.entries@.len() && (#[trigger] p2.entries@[m]).0 == k;
            let n = if m < i {
                m
            } else {
                m + 1
            };
            assert(p1.entries@[n] == p2.entries@[m]);
            assert(p1.as_map()[k] == p1.entries@[n].1);
            assert(k != ok);
        }
        assert forall|k: i64| #[trigger] m1.contains_key(k) implies p2.as_map().contains_key(
            k,
        ) by {
            let m = choose|m: int|
                0 <= m < p1.entries@.len() && (#[trigger] p1.entries@[m]).0 == k;
            assert(m != i);
            let n = if m < i {
                m
            } else {
                m - 1
            };
            assert(p2.entries@[n].0 == k);
        }
        assert(p2.as_map() =~= m1);
    }

    /// After the subtree at child slot `i` gains the binding `key -> val`,
    /// and `key` lies strictly inside that slot's key interval, the node
    /// gains exactly that binding.
    pub(crate) proof fn lemma_child_map_insert(p1: Self, p2: Self, i: int, key: i64, val: V)
        requires
            p1.links_ok(),
            p1.children@.len() != 0,
            0 <= i < p1.children@.len(),
            p2.entries@ == p1.entries@,
            p2.children@.len() == p1.children@.len(),
            forall|j: int|
                0 <= j < p1.children@.len() && j != i ==> #[trigger] p2.children@[j]
                    == p1.children@[j],
            p2.children@[i].as_map() == p1.children@[i].as_map().insert(key, val),
            i > 0 ==> p1.key_at(i - 1) < key,
            i < p1.entries@.len() ==> key < p1.key_at(i),
        ensures
            p2.links_ok(),
            p2.as_map() == p1.as_map().insert(key, val),
    {
        Self::lemma_node_map(p1);
        assert(p2.links_ok()) by {
            assert forall|j: int, k: i64|
                0 <= j < p2.children@.len() && #[trigger] p2.children@[j].as_map().contains_key(
                    k,
                ) implies (j > 0 ==> p2.key_at(j - 1) < k) && (j < p2.entries@.len() ==> k
                < p2.key_at(j)) by {
                if j == i {
                    assert(k == key || p1.children@[i].as_map().contains_key(k));
                } else {
                    assert(p1.children@[j].as_map().contains_key(k));
                }
            }
        }
        Self::lemma_node_map(p2);
        let m1 = p1.as_map().insert(key, val);
        // No entry of the node and no other child can carry `key`.
        assert forall|m: int| 0 <= m < p1.entries@.len() implies (#[trigger] p1.entries@[m]).0
            != key by {
            if m < i {
                assert(p1.entries@[m].0 <= p1.entries@[i - 1].0);
            } else {
                assert(p1.entries@[i].0 <= p1.entries@[m].0);
            }
        }
        assert forall|j: int|
            0 <= j < p1.children@.len() && j != i implies !(#[trigger] p1.children@[j].as_map(
        ).contains_key(key)) by {
            if p1.children@[j].as_map().contains_key(key) {
                if j < i {
                    assert(key < p1.key_at(j));
                    assert(p1.entries@[j].0 <= p1.entries@[i - 1].0);
                } else {
                    assert(key > p1.key_at(j - 1));
                    assert(p1.entries@[i].0 <= p1.entries@[j - 1].0);
                }
            }
        }
        assert forall|k: i64| #[trigger] p2.as_map().contains_key(k) implies m1.contains_key(k)
            && m1[k] == p2.as_map()[k] by {
            if p2.has_local(k) {
                let m = choose|m: int|
                    0 <= m < p2.entries@.len() && (#[trigger] p2.entries@[m]).0 == k;
                assert(p1.entries@[m].0 == k);
                assert(p2.as_map()[k] == p2.entries@[m].1);
                assert(p1.as_map()[k] == p1.entries@[m].1);
            } else {
                let j = choose|j: int|
                    0 <= j < p2.children@.len() && (#[trigger] p2.children@[j]).as_map(
                    ).contains_key(k);
                assert(p2.as_map()[k] == p2.children@[j].as_map()[k]);
                if j == i {
                    if k != key {
                        assert(p1.children@[i].as_map().contains_key(k));
                        assert(p1.as_map()[k] == p1.children@[i].as_map()[k]);
                    }
                } else {
                    assert(p1.children@[j].as_map().contains_key(k));
                    assert(k != key);
                    assert(p1.as_map()[k] == p1.children@[j].as_map()[k]);
                }
            }
        }
        assert forall|k: i64| #[trigger] m1.contains_key(k) implies p2.as_map().contains_key(
            k,
        ) by {
            if k == key {
                assert(p2.children@[i].as_map().contains_key(k));
            } else {
                if p1.has_local(k) {
                    let m = choose|m: int|
                        0 <= m < p1.entries@.len() && (#[trigger] p1.entries@[m]).0 == k;
                    assert(p2.entries@[m].0 == k);
                } else {
                    let j = choose|j: int|
                        0 <= j < p1.children@.len() && (#[trigger] p1.children@[j]).as_map(
                        ).contains_key(k);
                    assert(p2.children@[j].as_map().contains_key(k));
                }
            }
        }
        assert(p2.as_map() =~= m1);
    }

    /// After the subtree at child slot `i` loses the binding of `key`, and
    /// `key` lies strictly inside that slot's key interval, the node loses
    /// exactly that binding.
    pub(crate) proof fn lemma_child_map_remove(p1: Self, p2: Self, i: int, key: i64)
        requires
            p1.links_ok(),
            p1.children@.len() != 0,
            0 <= i < p1.children@.len(),
            p2.entries@ == p1.entries@,
            p2.children@.len() == p1.children@.len(),
            forall|j: int|
                0 <= j < p1.children@.len() && j != i ==> #[trigger] p2.children@[j]
                    == p1.children@[j],
            p2.children@[i].as_map() == p1.children@[i].as_map().remove(key),
            i > 0 ==> p1.key_at(i - 1) < key,
            i < p1.entries@.len() ==> key < p1.key_at(i),
        ensures
            p2.links_ok(),
            p2.as_map() == p1.as_map().remove(key),
    {
        Self::lemma_node_map(p1);
        assert(p2.links_ok()) by {
            assert forall|j: int, k: i64|
                0 <= j < p2.children@.len() && #[trigger] p2.children@[j].as_map().contains_key(
                    k,
                ) implies (j > 0 ==> p2.key_at(j - 1) < k) && (j < p2.entries@.len() ==> k
                < p2.key_at(j)) by {
                assert(p1.children@[j].as_map().contains_key(k));
            }
        }
        Self::lemma_node_map(p2);
        let m1 = p1.as_map().remove(key);
        assert forall|m: int| 0 <= m < p1.entries@.len() implies (#[trigger] p1.entries@[m]).0
            != key by {
            if m < i {
                assert(p1.entries@[m].0 <= p1.entries@[i - 1].0);
            } else {
                assert(p1.entries@[i].0 <= p1.entries@[m].0);
            }
        }
        assert forall|j: int|
            0 <= j < p1.children@.len() && j != i implies !(#[trigger] p1.children@[j].as_map(
        ).contains_key(key)) by {
            if p1.children@[j].as_map().contains_key(key) {
                if j < i {
                    assert(key < p1.key_at(j));
                    assert(p1.entries@[j].0 <= p1.entries@[i - 1].0);
                } else {
                    assert(key > p1.key_at(j - 1));
                    assert(p1.entries@[i].0 <= p1.entries@[j - 1].0);
                }
            }
        }
        assert forall|k: i64| #[trigger] p2.as_map().contains_key(k) implies m1.contains_key(k)
            && m1[k] == p2.as_map()[k] by {
            if p2.has_local(k) {
                let m = choose|m: int|
                    0 <= m < p2.entries@.len() && (#[trigger] p2.entries@[m]).0 == k;
                assert(p1.entries@[m].0 == k);
                assert(k != key);
                assert(p2.as_map()[k] == p2.entries@[m].1);
                assert(p1.as_map()[k] == p1.entries@[m].1);
            } else {
                let j = choose|j: int|
                    0 <= j < p2.children@.len() && (#[trigger] p2.children@[j]).as_map(
                    ).contains_key(k);
                assert(p2.as_map()[k] == p2.children@[j].as_map()[k]);
                if j == i {
                    assert(p1.children@[i].as_map().contains_key(k) && k != key);
                    assert(p1.as_map()[k] == p1.children@[i].as_map()[k]);
                } else {
                    assert(p1.children@[j].as_map().contains_key(k));
                    assert(k != key);
                    assert(p1.as_map()[k] == p1.children@[j].as_map()[k]);
                }
            }
        }
        assert forall|k: i64| #[trigger] m1.contains_key(k) implies p2.as_map().contains_key(
            k,
        ) by {
            if p1.has_local(k) {
                let m = choose|m: int|
                    0 <= m < p1.entries@.len() && (#[trigger] p1.entries@[m]).0 == k;
                assert(p2.entries@[m].0 == k);
            } else {
                let j = choose|j: int|
                    0 <= j < p1.children@.len() && (#[trigger] p1.children@[j]).as_map(
                    ).contains_key(k);
                if j == i {
                    assert(p2.children@[i].as_map().contains_key(k));
                } else {
                    assert(p2.children@[j].as_map().contains_key(k));
                }
            }
        }
        assert(p2.as_map() =~= m1);
    }
}

impl<V> View for SimpleTree<V> {
    type V = Map<i64, V>;

    open spec fn view(&self) -> Map<i64, V> {
        self.as_map()
    }
}

impl<V> Default for SimpleTree<V> {
    /// A new empty tree.
    fn default() -> (tree: Self)
        ensures
            tree.wf(),
            tree@ == Map::<i64, V>::empty(),
    {
        let tree = SimpleTree { entries: Vec::new(), children: Vec::new() };
        proof {
            assert(tree.as_map() =~= Map::<i64, V>::empty());
        }
        tree
    }
}

} // verus!
