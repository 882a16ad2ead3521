//! Structural surgery shared by insertion and deletion.
//!
//! `uplift` divides one child in two and promotes the dividing entry into
//! the parent; `downlift` folds two adjacent children and their separating
//! entry into one child.  Both work on the entry and child vectors of the
//! parent node and preserve its content (`as_map`) and its height exactly.
//! `borrow` combines the two to restore spare occupancy in one child before
//! a deletion descends into it.

use vstd::prelude::*;

use crate::node::SimpleTree;
use crate::node::A;
use crate::node::B;

verus! {

/// The node whose fields the two vectors are.  The parent's entry and child
/// vectors are borrowed separately during surgery; this rebuilds the node
/// value that contracts speak about.
pub(crate) open spec fn node_of<V>(ks: Vec<(i64, V)>, cs: Vec<SimpleTree<V>>) -> SimpleTree<V> {
    SimpleTree { entries: ks, children: cs }
}

/// A mutable borrow of one element of a vector.
pub(crate) fn at_mut<T>(v: &mut Vec<T>, i: usize) -> (element: &mut T)
    requires
        i < old(v).len(),
    ensures
        *element == old(v)@[i as int],
        final(v)@ == old(v)@.update(i as int, *final(element)),
{
    &mut v[i]
}

impl<V> SimpleTree<V> {
    /// Divide the child `cs[ci]` after its entry `gc` into two nodes and
    /// promote that entry into the parent at position `ci`: the child keeps
    /// its first `gc` entries, a new right node at `ci + 1` receives the
    /// rest, and the parent gains the promoted entry and one child.  The
    /// parent's content and height are unchanged.
    #[verifier::rlimit(60)]
    pub(crate) fn uplift(ks: &mut Vec<(i64, V)>, cs: &mut Vec<SimpleTree<V>>, ci: usize, gc: usize)
        requires
            old(cs).len() == old(ks).len() + 1,
            ci < old(cs).len(),
            gc < old(cs)@[ci as int].entries@.len(),
            (node_of(*old(ks), *old(cs))).frame_wf(),
        ensures
            final(ks)@.len() == old(ks)@.len() + 1,
            final(cs)@.len() == old(cs)@.len() + 1,
            final(ks)@ == old(ks)@.insert(ci as int, old(cs)@[ci as int].entries@[gc as int]),
            forall|j: int| 0 <= j < ci ==> final(cs)@[j] == old(cs)@[j],
            forall|j: int|
                ci + 1 < j < final(cs)@.len() ==> final(cs)@[j] == old(cs)@[j - 1],
            final(cs)@[ci as int].entries@ == old(cs)@[ci as int].entries@.subrange(0, gc as int),
            final(cs)@[ci as int + 1].entries@ == old(cs)@[ci as int].entries@.subrange(
                gc as int + 1,
                old(cs)@[ci as int].entries@.len() as int,
            ),
            final(cs)@[ci as int].height() == old(cs)@[ci as int].height(),
            final(cs)@[ci as int + 1].height() == old(cs)@[ci as int].height(),
            (node_of(*final(ks), *final(cs))).frame_wf(),
            (node_of(*final(ks), *final(cs))).as_map() == (node_of(
                *old(ks),
                *old(cs),
            )).as_map(),
            (node_of(*final(ks), *final(cs))).height() == (node_of(
                *old(ks),
                *old(cs),
            )).height(),
    {
        let ghost p1 = node_of(*old(ks), *old(cs));
        let ghost c = old(cs)@[ci as int];
        let child = at_mut(cs, ci);
        let right_entries = child.entries.split_off(gc + 1);
        let promoted = child.entries.pop().unwrap();
        let right_children = if child.children.len() > 0 {
            assert(c.node_wf());
            child.children.split_off(gc + 1)
        } else {
            Vec::new()
        };
        let right = SimpleTree { entries: right_entries, children: right_children };
        cs.insert(ci + 1, right);
        ks.insert(ci, promoted);
        proof {
            let p2 = node_of(*ks, *cs);
            let l = cs@[ci as int];
            let r = cs@[ci as int + 1];
            let e = c.entries@[gc as int];
            let n = c.entries@.len() as int;
            assert(c.node_wf());
            assert(l.entries@ == c.entries@.subrange(0, gc as int));
            assert(r.entries@ == c.entries@.subrange(gc + 1, n));
            assert(c.children@.len() != 0 ==> l.children@ == c.children@.subrange(
                0,
                gc as int + 1,
            ) && r.children@ == c.children@.subrange(gc + 1, c.children@.len() as int));
            assert(ks@ == old(ks)@.insert(ci as int, e));
            assert(cs@ == old(cs)@.update(ci as int, l).insert(ci as int + 1, r));
            // Index bookkeeping for the new vectors.
            assert forall|m: int| 0 <= m < ks@.len() implies ks@[m] == (if m < ci {
                old(ks)@[m]
            } else if m == ci {
                e
            } else {
                old(ks)@[m - 1]
            }) by {
                Self::lemma_seq_insert_index(old(ks)@, ci as int, e, m);
            }
            assert forall|j: int| 0 <= j < cs@.len() implies cs@[j] == (if j < ci {
                old(cs)@[j]
            } else if j == ci {
                l
            } else if j == ci + 1 {
                r
            } else {
                old(cs)@[j - 1]
            }) by {
                Self::lemma_seq_insert_index(
                    old(cs)@.update(ci as int, l),
                    ci as int + 1,
                    r,
                    j,
                );
            }
            Self::lemma_node_map(p1);
            Self::lemma_node_map(c);
            // The two pieces are well linked, well formed and of the child's height.
            Self::lemma_split_pieces(c, l, r, gc as int);
            Self::lemma_node_map(l);
            Self::lemma_node_map(r);
            // The promoted key lies strictly between the parent keys around `ci`.
            assert(c.as_map().contains_key(e.0) && c.as_map()[e.0] == e.1);
            assert(ci > 0 ==> p1.key_at(ci as int - 1) < e.0);
            assert(ci < old(ks)@.len() ==> e.0 < p1.key_at(ci as int));
            // Every key of a piece is a key of the old child, on its side of `e.0`.
            assert forall|k: i64| #[trigger] l.as_map().contains_key(k) implies c.as_map(
            ).contains_key(k) && k < e.0 && c.as_map()[k] == l.as_map()[k] by {
                Self::lemma_piece_key(c, l, gc as int, k, true);
            }
            assert forall|k: i64| #[trigger] r.as_map().contains_key(k) implies c.as_map(
            ).contains_key(k) && k > e.0 && c.as_map()[k] == r.as_map()[k] by {
                Self::lemma_piece_key(c, r, gc as int, k, false);
            }
            assert(p2.links_ok()) by {
                assert forall|i: int, j: int|
                    #![trigger p2.entries@[i], p2.entries@[j]]
                    0 <= i < j < p2.entries@.len() implies p2.entries@[i].0
                    < p2.entries@[j].0 by {
                    assert(Self::entries_sorted(p1.entries@));
                }
                assert forall|i: int, k: i64|
                    0 <= i < p2.children@.len() && #[trigger] p2.children@[i].as_map(
                    ).contains_key(k) implies (i > 0 ==> p2.key_at(i - 1) < k) && (i
                    < p2.entries@.len() ==> k < p2.key_at(i)) by {
                    if i < ci {
                        assert(p2.children@[i] == old(cs)@[i]);
                    } else if i == ci {
                        assert(c.as_map().contains_key(k) && k < e.0);
                    } else if i == ci + 1 {
                        assert(c.as_map().contains_key(k) && k > e.0);
                    } else {
                        assert(p2.children@[i] == old(cs)@[i - 1]);
                    }
                }
            }
            assert(p2.frame_wf()) by {
                assert forall|i: int|
                    0 <= i < p2.children@.len() implies (#[trigger] p2.children@[i]).node_wf()
                    && p2.children@[i].height() == p2.children@[0].height() by {
                    if i != ci && i != ci + 1 {
                        let oi = if i < ci {
                            i
                        } else {
                            i - 1
                        };
                        assert(p2.children@[i] == old(cs)@[oi]);
                    }
                    assert(p2.children@[0].height() == old(cs)@[0].height());
                }
            }
            assert(p2.height() == p1.height());
            Self::lemma_node_map(p2);
            // Content is preserved: chase each key through the reshaped node.
            assert forall|k: i64| #[trigger] p1.as_map().contains_key(k) implies p2.as_map(
            ).contains_key(k) && p2.as_map()[k] == p1.as_map()[k] by {
                if p1.has_local(k) {
                    let m = choose|m: int|
                        0 <= m < p1.entries@.len() && (#[trigger] p1.entries@[m]).0 == k;
                    let m2 = if m < ci {
                        m
                    } else {
                        m + 1
                    };
                    assert(p2.entries@[m2] == p1.entries@[m]);
                    assert(p2.as_map()[k] == p2.entries@[m2].1);
                } else {
                    let j = choose|j: int|
                        0 <= j < p1.children@.len() && (#[trigger] p1.children@[j]).as_map(
                        ).contains_key(k);
                    if j != ci {
                        let j2 = if j < ci {
                            j
                        } else {
                            j + 1
                        };
                        assert(p2.children@[j2] == p1.children@[j]);
                        assert(p2.as_map()[k] == p2.children@[j2].as_map()[k]);
                    } else {
                        // The key sat in the split child: it is now in the left
                        // piece, the promoted entry, or the right piece.
                        assert(c.as_map().contains_key(k));
                        assert(p1.as_map()[k] == c.as_map()[k]);
                        if c.has_local(k) {
                            let i = choose|i: int|
                                0 <= i < c.entries@.len() && (#[trigger] c.entries@[i]).0 == k;
                            assert(c.as_map()[k] == c.entries@[i].1);
                            if i < gc {
                                assert(l.entries@[i] == c.entries@[i]);
                                assert(l.as_map()[k] == l.entries@[i].1);
                                assert(p2.as_map()[k] == l.as_map()[k]);
                            } else if i == gc {
                                assert(p2.entries@[ci as int] == e);
                                assert(p2.as_map()[k] == e.1);
                            } else {
                                assert(r.entries@[i - gc - 1] == c.entries@[i]);
                                assert(r.as_map()[k] == r.entries@[i - gc - 1].1);
                                assert(p2.as_map()[k] == r.as_map()[k]);
                            }
                        } else {
                            let i = choose|i: int|
                                0 <= i < c.children@.len() && (#[trigger] c.children@[i]).as_map(
                                ).contains_key(k);
                            assert(c.as_map()[k] == c.children@[i].as_map()[k]);
                            if i <= gc {
                                assert(l.children@[i] == c.children@[i]);
                                assert(l.as_map()[k] == l.children@[i].as_map()[k]);
                                assert(p2.as_map()[k] == l.as_map()[k]);
                            } else {
                                assert(r.children@[i - gc - 1] == c.children@[i]);
                                assert(r.as_map()[k] == r.children@[i - gc - 1].as_map()[k]);
                                assert(p2.as_map()[k] == r.as_map()[k]);
                            }
                        }
                    }
                }
            }
            assert forall|k: i64| #[trigger] p2.as_map().contains_key(k) implies p1.as_map(
            ).contains_key(k) by {
                if p2.has_local(k) {
                    let m = choose|m: int|
                        0 <= m < p2.entries@.len() && (#[trigger] p2.entries@[m]).0 == k;
                    if m < ci {
                        assert(p1.entries@[m].0 == k);
                    } else if m == ci {
                        assert(c.as_map().contains_key(k));
                    } else {
                        assert(p1.entries@[m - 1].0 == k);
                    }
                } else {
                    let j = choose|j: int|
                        0 <= j < p2.children@.len() && (#[trigger] p2.children@[j]).as_map(
                        ).contains_key(k);
                    if j < ci {
                        assert(p1.children@[j].as_map().contains_key(k));
                    } else if j == ci || j == ci + 1 {
                        assert(c.as_map().contains_key(k));
                        assert(p1.children@[ci as int].as_map().contains_key(k));
                    } else {
                        assert(p1.children@[j - 1].as_map().contains_key(k));
                    }
                }
            }
            assert(p2.as_map() =~= p1.as_map());
        }
    }

    /// Fold the child `cs[ci]`, the separating entry `ks[ci]` and the child
    /// `cs[ci + 1]` into a single child at `ci`: the merged child receives
    /// the left child's entries, the separator and the right child's
    /// entries, in that order, and both children's subtrees.  The parent
    /// loses one entry and one child; its content and height are unchanged.
    #[verifier::rlimit(60)]
    pub(crate) fn downlift(ks: &mut Vec<(i64, V)>, cs: &mut Vec<SimpleTree<V>>, ci: usize)
        requires
            old(cs).len() == old(ks).len() + 1,
            ci + 1 < old(cs).len(),
            (node_of(*old(ks), *old(cs))).frame_wf(),
            old(cs)@[ci as int].entries@.len() + 1 + old(cs)@[ci as int + 1].entries@.len() <= B,
        ensures
            final(ks)@.len() == old(ks)@.len() - 1,
            final(cs)@.len() == old(cs)@.len() - 1,
            final(ks)@ == old(ks)@.remove(ci as int),
            forall|j: int| 0 <= j < ci ==> final(cs)@[j] == old(cs)@[j],
            forall|j: int| ci < j < final(cs)@.len() ==> final(cs)@[j] == old(cs)@[j + 1],
            final(cs)@[ci as int].entries@.len() == old(cs)@[ci as int].entries@.len() + 1 + old(
                cs,
            )@[ci as int + 1].entries@.len(),
            final(cs)@[ci as int].height() == old(cs)@[ci as int].height(),
            final(cs)@[ci as int].node_wf(),
            (node_of(*final(ks), *final(cs))).frame_wf(),
            (node_of(*final(ks), *final(cs))).as_map() == (node_of(
                *old(ks),
                *old(cs),
            )).as_map(),
            (node_of(*final(ks), *final(cs))).height() == (node_of(
                *old(ks),
                *old(cs),
            )).height(),
    {
        let ghost p1 = node_of(*old(ks), *old(cs));
        let ghost lt = old(cs)@[ci as int];
        let ghost rt = old(cs)@[ci as int + 1];
        proof {
            assert(lt.node_wf());
            assert(rt.node_wf());
        }
        let mut right = cs.remove(ci + 1);
        let sep = ks.remove(ci);
        let child = at_mut(cs, ci);
        child.entries.push(sep);
        child.entries.append(&mut right.entries);
        child.children.append(&mut right.children);
        proof {
            let p2 = node_of(*ks, *cs);
            let m = cs@[ci as int];
            let a = lt.entries@.len() as int;
            let b = rt.entries@.len() as int;
            let s = old(ks)@[ci as int];
            assert(m.entries@ == lt.entries@.push(s) + rt.entries@);
            assert(m.children@ == lt.children@ + rt.children@);
            assert forall|m2: int| 0 <= m2 < ks@.len() implies ks@[m2] == (if m2 < ci {
                old(ks)@[m2]
            } else {
                old(ks)@[m2 + 1]
            }) by {}
            assert forall|j: int| 0 <= j < cs@.len() implies cs@[j] == (if j < ci {
                old(cs)@[j]
            } else if j == ci {
                m
            } else {
                old(cs)@[j + 1]
            }) by {}
            assert forall|i: int| 0 <= i < m.entries@.len() implies m.entries@[i] == (if i < a {
                lt.entries@[i]
            } else if i == a {
                s
            } else {
                rt.entries@[i - a - 1]
            }) by {}
            assert forall|i: int| 0 <= i < m.children@.len() implies m.children@[i] == (if i
                < lt.children@.len() {
                lt.children@[i]
            } else {
                rt.children@[i - lt.children@.len()]
            }) by {}
            Self::lemma_node_map(p1);
            Self::lemma_node_map(lt);
            Self::lemma_node_map(rt);
            // Every key of the left child sits below the separator, every key
            // of the right child above it.
            assert forall|k: i64| #[trigger] lt.as_map().contains_key(k) implies k < s.0 by {
                assert(p1.children@[ci as int].as_map().contains_key(k));
            }
            assert forall|k: i64| #[trigger] rt.as_map().contains_key(k) implies k > s.0 by {
                assert(p1.children@[ci as int + 1].as_map().contains_key(k));
            }
            // The two children are of equal height, so they are both leaves
            // or both internal.
            assert(lt.height() == rt.height());
            assert(lt.children@.len() == 0 <==> rt.children@.len() == 0);
            assert(m.links_ok()) by {
                assert forall|i: int, j: int|
                    #![trigger m.entries@[i], m.entries@[j]]
                    0 <= i < j < m.entries@.len() implies m.entries@[i].0 < m.entries@[j].0 by {
                    if i < a && j < a {
                        assert(lt.entries@[i].0 < lt.entries@[j].0);
                    } else if i < a {
                        assert(lt.as_map().contains_key(lt.entries@[i].0));
                    } else if i == a || j > a {
                        if j > a {
                            assert(rt.as_map().contains_key(rt.entries@[j - a - 1].0));
                        }
                    }
                }
                assert forall|i: int, k: i64|
                    0 <= i < m.children@.len() && #[trigger] m.children@[i].as_map(
                    ).contains_key(k) implies (i > 0 ==> m.key_at(i - 1) < k) && (i
                    < m.entries@.len() ==> k < m.key_at(i)) by {
                    let lc = lt.children@.len() as int;
                    if i < lc {
                        assert(lt.children@[i].as_map().contains_key(k));
                        assert(lt.as_map().contains_key(k));
                        if i < lc - 1 {
                            assert(k < lt.key_at(i));
                        }
                    } else {
                        assert(rt.children@[i - lc].as_map().contains_key(k));
                        assert(rt.as_map().contains_key(k));
                        if i > lc {
                            assert(k > rt.key_at(i - lc - 1));
                        }
                    }
                }
            }
            assert(m.node_wf()) by {
                assert forall|i: int|
                    0 <= i < m.children@.len() implies (#[trigger] m.children@[i]).node_wf()
                    && m.children@[i].height() == m.children@[0].height() && m.children@[i].entries@.len()
                    >= A by {
                    let lc = lt.children@.len() as int;
                    if i < lc {
                        assert(m.children@[i] == lt.children@[i]);
                    } else {
                        assert(m.children@[i] == rt.children@[i - lc]);
                        assert(rt.children@[i - lc].height() == rt.children@[0].height());
                    }
                    if m.children@.len() > 0 {
                        assert(m.children@[0] == lt.children@[0]);
                        assert(lt.height() == rt.height());
                    }
                }
            }
            assert(m.height() == lt.height());
            Self::lemma_node_map(m);
            // Keys of the merged child are exactly those of the two old
            // children and the separator, with their old values.
            assert forall|k: i64| #[trigger] m.as_map().contains_key(k) implies (lt.as_map(
            ).contains_key(k) && m.as_map()[k] == lt.as_map()[k]) || (k == s.0 && m.as_map()[k]
                == s.1) || (rt.as_map().contains_key(k) && m.as_map()[k] == rt.as_map()[k]) by {
                let lc = lt.children@.len() as int;
                if m.has_local(k) {
                    let i = choose|i: int|
                        0 <= i < m.entries@.len() && (#[trigger] m.entries@[i]).0 == k;
                    assert(m.as_map()[k] == m.entries@[i].1);
                    if i < a {
                        assert(lt.entries@[i].0 == k);
                        assert(lt.as_map()[k] == lt.entries@[i].1);
                    } else if i > a {
                        assert(rt.entries@[i - a - 1].0 == k);
                        assert(rt.as_map()[k] == rt.entries@[i - a - 1].1);
                    }
                } else {
                    let i = choose|i: int|
                        0 <= i < m.children@.len() && (#[trigger] m.children@[i]).as_map(
                        ).contains_key(k);
                    assert(m.as_map()[k] == m.children@[i].as_map()[k]);
                    if i < lc {
                        assert(lt.children@[i].as_map().contains_key(k));
                        assert(lt.as_map()[k] == lt.children@[i].as_map()[k]);
                    } else {
                        assert(rt.children@[i - lc].as_map().contains_key(k));
                        assert(rt.as_map()[k] == rt.children@[i - lc].as_map()[k]);
                    }
                }
            }
            assert forall|k: i64| #[trigger] lt.as_map().contains_key(k) implies m.as_map(
            ).contains_key(k) by {
                if lt.has_local(k) {
                    let i = choose|i: int|
                        0 <= i < lt.entries@.len() && (#[trigger] lt.entries@[i]).0 == k;
                    assert(m.entries@[i].0 == k);
                } else {
                    let i = choose|i: int|
                        0 <= i < lt.children@.len() && (#[trigger] lt.children@[i]).as_map(
                        ).contains_key(k);
                    assert(m.children@[i].as_map().contains_key(k));
                }
            }
            assert forall|k: i64| #[trigger] rt.as_map().contains_key(k) implies m.as_map(
            ).contains_key(k) by {
                let lc = lt.children@.len() as int;
                if rt.has_local(k) {
                    let i = choose|i: int|
                        0 <= i < rt.entries@.len() && (#[trigger] rt.entries@[i]).0 == k;
                    assert(m.entries@[a + 1 + i].0 == k);
                } else {
                    let i = choose|i: int|
                        0 <= i < rt.children@.len() && (#[trigger] rt.children@[i]).as_map(
                        ).contains_key(k);
                    assert(m.children@[lc + i].as_map().contains_key(k));
                }
            }
            assert(m.as_map().contains_key(s.0) && m.as_map()[s.0] == s.1) by {
                assert(m.entries@[a].0 == s.0);
            }
            assert(p2.links_ok()) by {
                assert forall|i: int, j: int|
                    #![trigger p2.entries@[i], p2.entries@[j]]
                    0 <= i < j < p2.entries@.len() implies p2.entries@[i].0
                    < p2.entries@[j].0 by {
                    assert(Self::entries_sorted(p1.entries@));
                }
                assert forall|i: int, k: i64|
                    0 <= i < p2.children@.len() && #[trigger] p2.children@[i].as_map(
                    ).contains_key(k) implies (i > 0 ==> p2.key_at(i - 1) < k) && (i
                    < p2.entries@.len() ==> k < p2.key_at(i)) by {
                    if i < ci {
                        assert(p2.children@[i] == old(cs)@[i]);
                    } else if i == ci {
                        assert(p1.children@[ci as int].as_map().contains_key(k) || (k == s.0) || (
                        p1.children@[ci as int + 1].as_map().contains_key(k)));
                        assert(ci > 0 ==> p1.key_at(ci as int - 1) < s.0);
                        assert(ci + 1 < old(ks)@.len() ==> s.0 < p1.key_at(ci as int + 1));
                    } else {
                        assert(p2.children@[i] == old(cs)@[i + 1]);
                    }
                }
            }
            assert(p2.frame_wf()) by {
                assert forall|i: int|
                    0 <= i < p2.children@.len() implies (#[trigger] p2.children@[i]).node_wf()
                    && p2.children@[i].height() == p2.children@[0].height() by {
                    if i != ci {
                        let oi = if i < ci {
                            i
                        } else {
                            i + 1
                        };
                        assert(p2.children@[i] == old(cs)@[oi]);
                    }
                    assert(p2.children@[0].height() == old(cs)@[0].height());
                }
            }
            assert(p2.height() == p1.height());
            Self::lemma_node_map(p2);
            assert forall|k: i64| #[trigger] p1.as_map().contains_key(k) implies p2.as_map(
            ).contains_key(k) && p2.as_map()[k] == p1.as_map()[k] by {
                if p1.has_local(k) {
                    let m2 = choose|m2: int|
                        0 <= m2 < p1.entries@.len() && (#[trigger] p1.entries@[m2]).0 == k;
                    if m2 == ci {
                        assert(m.as_map().contains_key(k) && m.as_map()[k] == s.1);
                        assert(p2.as_map()[k] == m.as_map()[k]);
                    } else {
                        let n2 = if m2 < ci {
                            m2
                        } else {
                            m2 - 1
                        };
                        assert(p2.entries@[n2] == p1.entries@[m2]);
                        assert(p2.as_map()[k] == p2.entries@[n2].1);
                    }
                } else {
                    let j = choose|j: int|
                        0 <= j < p1.children@.len() && (#[trigger] p1.children@[j]).as_map(
                        ).contains_key(k);
                    if j == ci || j == ci + 1 {
                        assert(m.as_map().contains_key(k));
                        assert(m.as_map()[k] == p1.children@[j].as_map()[k]);
                        assert(p2.as_map()[k] == m.as_map()[k]);
                    } else {
                        let j2 = if j < ci {
                            j
                        } else {
                            j - 1
                        };
                        assert(p2.children@[j2] == p1.children@[j]);
                        assert(p2.as_map()[k] == p2.children@[j2].as_map()[k]);
                    }
                }
            }
            assert forall|k: i64| #[trigger] p2.as_map().contains_key(k) implies p1.as_map(
            ).contains_key(k) by {
                if p2.has_local(k) {
                    let m2 = choose|m2: int|
                        0 <= m2 < p2.entries@.len() && (#[trigger] p2.entries@[m2]).0 == k;
                    let n2 = if m2 < ci {
                        m2
                    } else {
                        m2 + 1
                    };
                    assert(p1.entries@[n2].0 == k);
                } else {
                    let j = choose|j: int|
                        0 <= j < p2.children@.len() && (#[trigger] p2.children@[j]).as_map(
                        ).contains_key(k);
                    if j == ci {
                        assert(lt.as_map().contains_key(k) || k == s.0 || rt.as_map(
                        ).contains_key(k));
                        assert(lt.as_map().contains_key(k) ==> p1.children@[
                            ci as int
                        ].as_map().contains_key(k));
                        assert(rt.as_map().contains_key(k) ==> p1.children@[ci as int
                            + 1].as_map().contains_key(k));
                        assert(k == s.0 ==> p1.entries@[ci as int].0 == k);
                    } else {
                        let j2 = if j < ci {
                            j
                        } else {
                            j + 1
                        };
                        assert(p1.children@[j2].as_map().contains_key(k));
                    }
                }
            }
            assert(p2.as_map() =~= p1.as_map());
        }
    }

    /// The two pieces a node is split into are themselves well formed, and
    /// sit at the height of the node they came from.
    pub(crate) proof fn lemma_split_pieces(c: Self, l: Self, r: Self, gc: int)
        requires
            c.node_wf(),
            0 <= gc < c.entries@.len(),
            l.entries@ == c.entries@.subrange(0, gc),
            r.entries@ == c.entries@.subrange(gc + 1, c.entries@.len() as int),
            c.children@.len() == 0 ==> l.children@.len() == 0 && r.children@.len() == 0,
            c.children@.len() != 0 ==> l.children@ == c.children@.subrange(0, gc + 1)
                && r.children@ == c.children@.subrange(gc + 1, c.children@.len() as int),
        ensures
            l.node_wf(),
            r.node_wf(),
            l.height() == c.height(),
            r.height() == c.height(),
    {
        assert forall|i: int, k: i64|
            0 <= i < l.children@.len() && #[trigger] l.children@[i].as_map().contains_key(
                k,
            ) implies (i > 0 ==> l.key_at(i - 1) < k) && (i < l.entries@.len() ==> k < l.key_at(
            i,
        )) by {
            assert(l.children@[i] == c.children@[i]);
        }
        assert forall|i: int, k: i64|
            0 <= i < r.children@.len() && #[trigger] r.children@[i].as_map().contains_key(
                k,
            ) implies (i > 0 ==> r.key_at(i - 1) < k) && (i < r.entries@.len() ==> k < r.key_at(
            i,
        )) by {
            assert(r.children@[i] == c.children@[gc + 1 + i]);
            assert(c.children@[gc + 1 + i].as_map().contains_key(k));
        }
        assert(l.links_ok());
        assert(r.links_ok());
        if c.children@.len() != 0 {
            assert forall|i: int|
                0 <= i < l.children@.len() implies (#[trigger] l.children@[i]).node_wf()
                && l.children@[i].height() == l.children@[0].height() && l.children@[i].entries@.len()
                >= A by {
                assert(l.children@[i] == c.children@[i]);
                assert(c.children@[0].node_wf());
            }
            assert forall|i: int|
                0 <= i < r.children@.len() implies (#[trigger] r.children@[i]).node_wf()
                && r.children@[i].height() == r.children@[0].height() && r.children@[i].entries@.len()
                >= A by {
                assert(r.children@[i] == c.children@[gc + 1 + i]);
                assert(r.children@[0] == c.children@[gc + 1]);
            }
            assert(l.children@[0] == c.children@[0]);
            assert(r.children@[0] == c.children@[gc + 1]);
            assert(r.children@[0].height() == c.children@[0].height());
        }
    }

    /// Every key of a split piece is a key of the node that was split, with
    /// the same value, and lies strictly on the piece's side of the entry
    /// the split promoted.
    pub(crate) proof fn lemma_piece_key(c: Self, piece: Self, gc: int, k: i64, left: bool)
        requires
            c.node_wf(),
            0 <= gc < c.entries@.len(),
            left ==> piece.entries@ == c.entries@.subrange(0, gc),
            !left ==> piece.entries@ == c.entries@.subrange(gc + 1, c.entries@.len() as int),
            c.children@.len() == 0 ==> piece.children@.len() == 0,
            c.children@.len() != 0 ==> (if left {
                piece.children@ == c.children@.subrange(0, gc + 1)
            } else {
                piece.children@ == c.children@.subrange(gc + 1, c.children@.len() as int)
            }),
            piece.links_ok(),
            piece.as_map().contains_key(k),
        ensures
            c.as_map().contains_key(k),
            c.as_map()[k] == piece.as_map()[k],
            left ==> k < c.entries@[gc].0,
            !left ==> k > c.entries@[gc].0,
    {
        Self::lemma_node_map(c);
        Self::lemma_node_map(piece);
        let off: int = if left {
            0
        } else {
            gc + 1
        };
        if piece.has_local(k) {
            let i = choose|i: int|
                0 <= i < piece.entries@.len() && (#[trigger] piece.entries@[i]).0 == k;
            assert(c.entries@[off + i] == piece.entries@[i]);
            assert(c.as_map()[k] == c.entries@[off + i].1);
            assert(piece.as_map()[k] == piece.entries@[i].1);
        } else {
            let i = choose|i: int|
                0 <= i < piece.children@.len() && (#[trigger] piece.children@[i]).as_map(
                ).contains_key(k);
            assert(c.children@[off + i] == piece.children@[i]);
            assert(c.as_map()[k] == c.children@[off + i].as_map()[k]);
            assert(piece.as_map()[k] == piece.children@[i].as_map()[k]);
            if left {
                assert(k < c.key_at(off + i));
                assert(c.entries@[off + i].0 <= c.entries@[gc].0);
            } else {
                assert(k > c.key_at(off + i - 1));
                assert(c.entries@[gc].0 <= c.entries@[off + i - 1].0);
            }
        }
    }

    /// Ensure the child `cs[*ci]` has spare occupancy (strictly more than
    /// the floor `A`) before a deletion descends into it, by borrowing from
    /// a sibling with spare entries or by merging with a sibling at the
    /// floor.  Merging with the left sibling moves the target index one
    /// slot down; `*ci` follows the target.  The parent may lose one entry;
    /// its content and height are unchanged, and the key interval that
    /// slot `*ci` is responsible for only widens.
    #[verifier::rlimit(60)]
    pub(crate) fn borrow(ks: &mut Vec<(i64, V)>, cs: &mut Vec<SimpleTree<V>>, ci: &mut usize)
        requires
            old(ks).len() >= 1,
            old(cs).len() == old(ks).len() + 1,
            *old(ci) < old(cs).len(),
            (node_of(*old(ks), *old(cs))).frame_wf(),
            forall|i: int| 0 <= i < old(cs)@.len() ==> (#[trigger] old(cs)@[i]).entries@.len() >= A,
        ensures
            final(cs).len() == final(ks).len() + 1,
            old(ks).len() - 1 <= final(ks).len() <= old(ks).len(),
            *final(ci) < final(cs).len(),
            *final(ci) == *old(ci) || *final(ci) + 1 == *old(ci),
            final(cs)@[*final(ci) as int].entries@.len() > A,
            forall|i: int|
                0 <= i < final(cs)@.len() ==> (#[trigger] final(cs)@[i]).entries@.len() >= A,
            (node_of(*final(ks), *final(cs))).frame_wf(),
            (node_of(*final(ks), *final(cs))).as_map() == (node_of(
                *old(ks),
                *old(cs),
            )).as_map(),
            (node_of(*final(ks), *final(cs))).height() == (node_of(
                *old(ks),
                *old(cs),
            )).height(),
            *final(ci) > 0 ==> *old(ci) > 0 && final(ks)@[*final(ci) - 1].0 <= old(ks)@[*old(ci)
                - 1].0,
            *old(ci) < old(ks).len() ==> (*final(ci) == final(ks).len()
                || final(ks)@[*final(ci) as int].0 >= old(ks)@[*old(ci) as int].0),
            *old(ci) == old(ks).len() ==> *final(ci) == final(ks).len(),
    {
        let ghost p1 = node_of(*old(ks), *old(cs));
        let i = *ci;
        if cs[i].entries.len() > A {
            return ;
        }
        if i + 1 < cs.len() {
            let ghost rsib = old(cs)@[i as int + 1];
            let rl = cs[i + 1].entries.len();
            if rl > A {
                proof {
                    assert(rsib.node_wf());
                    Self::lemma_node_map(rsib);
                    assert(rsib.as_map().contains_key(rsib.entries@[rl - A - 1].0));
                }
                Self::uplift(ks, cs, i + 1, rl - A - 1);
            }
            proof {
                assert(cs@[i as int].entries@.len() + 1 + cs@[i as int + 1].entries@.len() <= B)
                    by {
                    assert(rsib.node_wf());
                    assert(cs@[i as int] == old(cs)@[i as int]);
                }
            }
            Self::downlift(ks, cs, i);
            proof {
                if rl > A {
                    assert(ks@ =~= old(ks)@.update(i as int, rsib.entries@[rl - A - 1]));
                    assert(rsib.entries@[rl - A - 1].0 > old(ks)@[i as int].0);
                } else {
                    assert(ks@ =~= old(ks)@.remove(i as int));
                }
            }
        } else if cs[i - 1].entries.len() <= A {
            *ci = i - 1;
            proof {
                assert(cs@[i as int - 1].entries@.len() + 1 + cs@[i as int].entries@.len() <= B)
                    by {
                    assert(old(cs)@[i as int - 1].node_wf());
                }
            }
            Self::downlift(ks, cs, i - 1);
            proof {
                assert(ks@ =~= old(ks)@.remove(i as int - 1));
            }
        } else {
            let ghost lsib = old(cs)@[i as int - 1];
            let ll = cs[i - 1].entries.len();
            proof {
                assert(lsib.node_wf());
                Self::lemma_node_map(lsib);
                assert(lsib.as_map().contains_key(lsib.entries@[A as int].0));
                assert(lsib.entries@[A as int].0 < old(ks)@[i as int - 1].0);
            }
            Self::uplift(ks, cs, i - 1, A);
            proof {
                assert(cs@[i as int].entries@.len() + 1 + cs@[i as int + 1].entries@.len() <= B)
                    by {
                    assert(cs@[i as int].entries@.len() == ll - A - 1);
                    assert(cs@[i as int + 1] == old(cs)@[i as int]);
                }
            }
            Self::downlift(ks, cs, i);
            proof {
                assert(ks@ =~= old(ks)@.update(i as int - 1, lsib.entries@[A as int]));
            }
        }
    }

    /// Element `m` of a sequence with one element inserted at `at`.
    pub(crate) proof fn lemma_seq_insert_index<T>(s: Seq<T>, at: int, x: T, m: int)
        requires
            0 <= at <= s.len(),
            0 <= m < s.len() + 1,
        ensures
            s.insert(at, x)[m] == (if m < at {
                s[m]
            } else if m == at {
                x
            } else {
                s[m - 1]
            }),
    {
    }
}

} // verus!
