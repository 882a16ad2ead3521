//! Ordered range queries: a bounded, depth-first, in-order walk over the
//! tree, driven by an explicit stack of frames instead of recursion.
//!
//! A frame holds a node, the next entry position to examine there, and an
//! optional entry inherited from an ancestor that becomes due once the
//! frame's subtree is exhausted.  Each loop step skips one entry below the
//! lower bound, pushes one child frame, descends past the upper bound
//! without yielding, yields one entry, or pops one finished frame.  The
//! stack is a growable vector, so no tree is too tall for it; its depth
//! stays bounded by the height of the tree.

use vstd::prelude::*;
use vstd::pervasive::VecAdditionalExecFns;

use crate::node::SimpleTree;
use crate::bounds::Bound;
use crate::bounds::above_lower;
use crate::bounds::in_range;
use crate::bounds::lemma_lower_monotone;
use crate::bounds::lemma_upper_monotone;

verus! {

impl<V> SimpleTree<V> {
    /// Number of entries and nodes of the subtrees `cs[i..]`, the fuel the
    /// traversal burns when it walks them.
    pub(crate) open spec fn kids_size(cs: Seq<SimpleTree<V>>, i: int) -> nat
        decreases cs, cs.len() - i,
    {
        if i < 0 || i >= cs.len() {
            0
        } else {
            cs[i].tree_size() + Self::kids_size(cs, i + 1)
        }
    }

    /// Number of entries and nodes of the whole subtree.
    pub(crate) open spec fn tree_size(self) -> nat
        decreases self, 0int,
    {
        1 + self.entries@.len() + Self::kids_size(self.children@, 0)
    }

    /// The walking that one frame still has ahead of it.
    pub(crate) open spec fn frame_work(f: (&SimpleTree<V>, usize, Option<(i64, V)>)) -> nat {
        let t = *f.0;
        let i = f.1 as int;
        (1 + (if i <= t.entries@.len() {
            t.entries@.len() - i
        } else {
            0
        }) + Self::kids_size(t.children@, i) + (if f.2 is Some {
            1int
        } else {
            0
        })) as nat
    }

    /// The walking the whole stack still has ahead of it.
    pub(crate) open spec fn stack_work(s: Seq<(&SimpleTree<V>, usize, Option<(i64, V)>)>) -> nat
        decreases s.len(),
    {
        if s.len() == 0 {
            0
        } else {
            Self::stack_work(s.drop_last()) + Self::frame_work(s.last())
        }
    }

    /// Height of the node of the top frame.
    pub(crate) open spec fn top_height(s: Seq<(&SimpleTree<V>, usize, Option<(i64, V)>)>) -> nat {
        if s.len() == 0 {
            0
        } else {
            s.last().0.height()
        }
    }

    /// A key the traversal has not decided yet: one of the frame's entries
    /// or subtrees at or past its position, or its inherited entry.
    pub(crate) open spec fn frame_pending(
        f: (&SimpleTree<V>, usize, Option<(i64, V)>),
        k: i64,
    ) -> bool {
        let t = *f.0;
        let i = f.1 as int;
        ||| (exists|m: int| i <= m < t.entries@.len() && (#[trigger] t.entries@[m]).0 == k)
        ||| (exists|c: int|
            i <= c < t.children@.len() && (#[trigger] t.children@[c]).as_map().contains_key(k))
        ||| (f.2 matches Some(e) && e.0 == k)
    }

    /// A key some frame of the stack has not decided yet.
    pub(crate) open spec fn stack_pending(
        s: Seq<(&SimpleTree<V>, usize, Option<(i64, V)>)>,
        k: i64,
    ) -> bool {
        exists|j: int| 0 <= j < s.len() && Self::frame_pending(#[trigger] s[j], k)
    }

    /// One frame is sound: its node is well formed and belongs to the tree
    /// being walked, its position is in range, and its inherited entry is a
    /// qualifying entry of the tree that lies above every key of its node.
    pub(crate) open spec fn frame_ok(
        self,
        f: (&SimpleTree<V>, usize, Option<(i64, V)>),
        lo: Bound,
        hi: Bound,
    ) -> bool {
        let t = *f.0;
        let i = f.1 as int;
        &&& t.node_wf()
        &&& i <= t.entries@.len()
        &&& (forall|k: i64|
            #[trigger] t.as_map().contains_key(k) ==> self.as_map().contains_key(k)
                && self.as_map()[k] == t.as_map()[k])
        &&& (f.2 matches Some(e) ==> self.as_map().contains_key(e.0) && self.as_map()[e.0] == e.1
            && in_range(lo, hi, e.0) && (forall|k: i64|
            #[trigger] t.as_map().contains_key(k) ==> k < e.0))
    }

    /// Every frame of the stack is sound.
    pub(crate) open spec fn frames_ok(
        self,
        s: Seq<(&SimpleTree<V>, usize, Option<(i64, V)>)>,
        lo: Bound,
        hi: Bound,
    ) -> bool {
        forall|j: int| 0 <= j < s.len() ==> self.frame_ok(#[trigger] s[j], lo, hi)
    }

    /// All qualifying entries, in ascending key order.  The result holds
    /// exactly those entries of the tree whose key satisfies both bounds,
    /// with their stored values, and its keys ascend strictly.
    #[verifier::rlimit(100)]
    pub fn range(&self, lo: Bound, hi: Bound) -> (out: Vec<(i64, V)>) where V: Copy
        requires
            self.wf(),
        ensures
            forall|a: int, b: int| 0 <= a < b < out@.len() ==> out@[a].0 < out@[b].0,
            forall|a: int|
                0 <= a < out@.len() ==> self@.contains_key((#[trigger] out@[a]).0) && out@[a].1
                    == self@[out@[a].0] && in_range(lo, hi, out@[a].0),
            forall|k: i64|
                self@.contains_key(k) && in_range(lo, hi, k) ==> exists|a: int|
                    0 <= a < out@.len() && (#[trigger] out@[a]).0 == k,
    {
        proof {
            (*self).lemma_wf_def();
            Self::lemma_node_map(*self);
        }
        let mut out: Vec<(i64, V)> = Vec::new();
        let mut stack: Vec<(&SimpleTree<V>, usize, Option<(i64, V)>)> = Vec::new();
        stack.push((self, 0, None));
        proof {
            assert(stack@[0] == (self, 0usize, None::<(i64, V)>));
            assert forall|k: i64|
                self.as_map().contains_key(k) && in_range(lo, hi, k) implies (exists|a: int|
                0 <= a < out@.len() && (#[trigger] out@[a]).0 == k) || Self::stack_pending(
                stack@,
                k,
            ) by {
                Self::lemma_map_pending(stack@[0], k);
            }
        }
        while stack.len() > 0
            invariant
                self.wf(),
                self.frames_ok(stack@, lo, hi),
                forall|a: int|
                    0 <= a < out@.len() ==> self.as_map().contains_key((#[trigger] out@[a]).0)
                        && out@[a].1 == self.as_map()[out@[a].0] && in_range(lo, hi, out@[a].0),
                forall|a: int, b: int| 0 <= a < b < out@.len() ==> out@[a].0 < out@[b].0,
                forall|k: i64|
                    self.as_map().contains_key(k) && #[trigger] in_range(lo, hi, k) ==> (exists|
                        a: int,
                    |
                        0 <= a < out@.len() && (#[trigger] out@[a]).0 == k) || Self::stack_pending(
                        stack@,
                        k,
                    ),
                forall|a: int, k: i64|
                    #![trigger out@[a], Self::stack_pending(stack@, k)]
                    0 <= a < out@.len() && Self::stack_pending(stack@, k) ==> out@[a].0 < k,
                forall|j1: int, j2: int, k1: i64, k2: i64|
                    #![trigger Self::frame_pending(stack@[j1], k1), Self::frame_pending(stack@[j2], k2)]
                    0 <= j1 < j2 < stack@.len() && Self::frame_pending(stack@[j1], k1)
                        && Self::frame_pending(stack@[j2], k2) ==> k2 < k1,
            decreases Self::stack_work(stack@), Self::top_height(stack@),
        {
            let ghost s1 = stack@;
            let ghost out1 = out@;
            let n = stack.len();
            let f = stack[n - 1];
            let t = f.0;
            let i = f.1;
            let ghost tv = *t;
            let ghost ii = i as int;
            proof {
                assert(self.frame_ok(s1[n - 1], lo, hi));
                Self::lemma_node_map(tv);
            }
            if i < t.entries.len() && !lo.admits_from_below(t.entries[i].0) {
                // The entry here is below the lower bound; so is everything
                // in the subtree before it.  Step past both.
                stack.set(n - 1, (t, i + 1, f.2));
                proof {
                    let s2 = stack@;
                    assert forall|k: i64|
                        self.as_map().contains_key(k) && #[trigger] in_range(lo, hi, k) implies (
                    exists|a: int| 0 <= a < out@.len() && (#[trigger] out@[a]).0 == k)
                        || Self::stack_pending(s2, k) by {
                        if Self::stack_pending(s1, k) && !(exists|a: int|
                            0 <= a < out@.len() && (#[trigger] out@[a]).0 == k) {
                            let j = choose|j: int|
                                0 <= j < s1.len() && Self::frame_pending(#[trigger] s1[j], k);
                            if j == n - 1 {
                                if exists|m: int|
                                    ii <= m < tv.entries@.len() && (#[trigger] tv.entries@[m]).0
                                        == k {
                                    let m = choose|m: int|
                                        ii <= m < tv.entries@.len() && (
                                        #[trigger] tv.entries@[m]).0 == k;
                                    if m == ii {
                                        assert(!above_lower(lo, k));
                                        assert(false);
                                    } else {
                                        Self::lemma_mk_pending_local(s2[j], m, k);
                                    }
                                } else if exists|c: int|
                                    ii <= c < tv.children@.len() && (
                                    #[trigger] tv.children@[c]).as_map().contains_key(k) {
                                    let c = choose|c: int|
                                        ii <= c < tv.children@.len() && (
                                        #[trigger] tv.children@[c]).as_map().contains_key(k);
                                    if c == ii {
                                        assert(k < tv.key_at(ii));
                                        lemma_lower_monotone(lo, tv.entries@[ii].0, k);
                                        assert(false);
                                    } else {
                                        Self::lemma_mk_pending_child(s2[j], c, k);
                                    }
                                } else {
                                    assert(Self::frame_pending(s2[j], k));
                                }
                            } else {
                                assert(s2[j] == s1[j]);
                                assert(Self::frame_pending(s2[j], k));
                            }
                        }
                    }
                    Self::lemma_pending_shrinks(s1, s2, n - 1);
                    Self::lemma_work_step(s1, s2, n - 1);
                    assert(Self::frame_work(s2[n - 1]) < Self::frame_work(s1[n - 1])) by {
                        if tv.children@.len() != 0 {
                            assert(Self::kids_size(tv.children@, ii) == tv.children@[ii].tree_size()
                                + Self::kids_size(tv.children@, ii + 1));
                        }
                    }
                }
            } else if t.children.len() > 0 {
                if i < t.entries.len() && hi.admits_from_above(t.entries[i].0) {
                    // The entry here qualifies: walk the subtree before it
                    // first, and owe the entry to the new frame.
                    stack.set(n - 1, (t, i + 1, f.2));
                    stack.push((&t.children[i], 0, Some(t.entries[i])));
                    proof {
                        let s2 = stack@;
                        let e = tv.entries@[ii];
                        let c = tv.children@[ii];
                        assert(tv.as_map().contains_key(e.0) && tv.as_map()[e.0] == e.1);
                        assert(self.frame_ok(s2[s2.len() - 1], lo, hi)) by {
                            assert forall|k: i64| #[trigger]
                                c.as_map().contains_key(k) implies self.as_map().contains_key(k)
                                && self.as_map()[k] == c.as_map()[k] && k < e.0 by {
                                assert(tv.as_map().contains_key(k));
                                assert(tv.as_map()[k] == c.as_map()[k]);
                            }
                        }
                        assert forall|j: int| 0 <= j < s2.len() implies self.frame_ok(
                            #[trigger] s2[j],
                            lo,
                            hi,
                        ) by {
                            if j < n - 1 {
                                assert(s2[j] == s1[j]);
                            }
                        }
                        // Pending keys are the same before and after.
                        assert forall|k: i64| Self::stack_pending(s1, k) implies Self::stack_pending(
                            s2,
                            k,
                        ) by {
                            let j = choose|j: int|
                                0 <= j < s1.len() && Self::frame_pending(#[trigger] s1[j], k);
                            if j == n - 1 {
                                if exists|m: int|
                                    ii <= m < tv.entries@.len() && (#[trigger] tv.entries@[m]).0
                                        == k {
                                    let m = choose|m: int|
                                        ii <= m < tv.entries@.len() && (
                                        #[trigger] tv.entries@[m]).0 == k;
                                    if m == ii {
                                        assert(s2[s2.len() - 1].2 == Some(e));
                                        assert(Self::frame_pending(s2[s2.len() - 1], k));
                                    } else {
                                        Self::lemma_mk_pending_local(s2[n - 1], m, k);
                                    }
                                } else if exists|c2: int|
                                    ii <= c2 < tv.children@.len() && (
                                    #[trigger] tv.children@[c2]).as_map().contains_key(k) {
                                    let c2 = choose|c2: int|
                                        ii <= c2 < tv.children@.len() && (
                                        #[trigger] tv.children@[c2]).as_map().contains_key(k);
                                    if c2 == ii {
                                        assert(c.node_wf());
                                        Self::lemma_map_pending(s2[s2.len() - 1], k);
                                    } else {
                                        Self::lemma_mk_pending_child(s2[n - 1], c2, k);
                                    }
                                } else {
                                    assert(Self::frame_pending(s2[n - 1], k));
                                }
                            } else {
                                assert(s2[j] == s1[j]);
                                assert(Self::frame_pending(s2[j], k));
                            }
                        }
                        assert forall|k: i64| Self::stack_pending(s2, k) implies Self::stack_pending(
                            s1,
                            k,
                        ) by {
                            let j = choose|j: int|
                                0 <= j < s2.len() && Self::frame_pending(#[trigger] s2[j], k);
                            if j == s2.len() - 1 {
                                assert(c.node_wf());
                                Self::lemma_pending_in_map(s2[j], k);
                                if c.as_map().contains_key(k) {
                                    Self::lemma_mk_pending_child(s1[n - 1], ii, k);
                                } else {
                                    Self::lemma_mk_pending_local(s1[n - 1], ii, k);
                                }
                            } else if j == n - 1 {
                                Self::lemma_frame_pending_mono(s1[n - 1], s2[n - 1], k);
                            } else {
                                assert(s2[j] == s1[j]);
                                assert(Self::frame_pending(s1[j], k));
                            }
                        }
                        // The new top's keys lie below everything the other
                        // frames still owe.
                        assert forall|j1: int, j2: int, k1: i64, k2: i64|
                            #![trigger Self::frame_pending(s2[j1], k1), Self::frame_pending(s2[j2], k2)]
                            0 <= j1 < j2 < s2.len() && Self::frame_pending(s2[j1], k1)
                                && Self::frame_pending(s2[j2], k2) implies k2 < k1 by {
                            if j2 == s2.len() - 1 {
                                assert(c.node_wf());
                                Self::lemma_pending_in_map(s2[j2], k2);
                                assert(k2 <= e.0) by {
                                    if c.as_map().contains_key(k2) {
                                        assert(k2 < tv.key_at(ii));
                                    }
                                }
                                if j1 == n - 1 {
                                    // remaining entries and subtrees of the
                                    // old top all lie above the owed entry
                                    Self::lemma_rest_above(tv, ii, k1, f.2, e.0);
                                } else {
                                    if c.as_map().contains_key(k2) {
                                        Self::lemma_mk_pending_child(s1[n - 1], ii, k2);
                                    } else {
                                        Self::lemma_mk_pending_local(s1[n - 1], ii, k2);
                                    }
                                    Self::lemma_frame_pending_mono(s1[j1], s2[j1], k1);
                                }
                            } else {
                                if j1 == n - 1 {
                                    Self::lemma_frame_pending_mono(s1[n - 1], s2[n - 1], k1);
                                } else {
                                    assert(Self::frame_pending(s1[j1], k1));
                                }
                                assert(Self::frame_pending(s1[j2], k2));
                            }
                        }
                        Self::lemma_work_push(s1, s2, n - 1);
                        assert(Self::kids_size(tv.children@, ii) == c.tree_size()
                            + Self::kids_size(tv.children@, ii + 1));
                        assert(Self::stack_work(s2) == Self::stack_work(s1));
                        assert(Self::top_height(s2) < Self::top_height(s1)) by {
                            assert(c.height() == tv.children@[0].height());
                        }
                    }
                } else {
                    // Nothing at or past this position qualifies under the
                    // upper bound except what the subtree here may hold:
                    // descend into it without owing anything new.
                    stack.set(n - 1, (&t.children[i], 0, f.2));
                    proof {
                        let s2 = stack@;
                        let c = tv.children@[ii];
                        assert(self.frame_ok(s2[n - 1], lo, hi)) by {
                            assert forall|k: i64| #[trigger]
                                c.as_map().contains_key(k) implies self.as_map().contains_key(k)
                                && self.as_map()[k] == c.as_map()[k] by {
                                assert(tv.as_map().contains_key(k));
                                assert(tv.as_map()[k] == c.as_map()[k]);
                            }
                            if f.2 is Some {
                                assert forall|k: i64| #[trigger]
                                    c.as_map().contains_key(k) implies k < f.2.unwrap().0 by {
                                    assert(tv.as_map().contains_key(k));
                                }
                            }
                        }
                        assert forall|k: i64|
                            self.as_map().contains_key(k) && #[trigger] in_range(lo, hi, k) implies
                        (exists|a: int| 0 <= a < out@.len() && (#[trigger] out@[a]).0 == k)
                            || Self::stack_pending(s2, k) by {
                            if Self::stack_pending(s1, k) && !(exists|a: int|
                                0 <= a < out@.len() && (#[trigger] out@[a]).0 == k) {
                                let j = choose|j: int|
                                    0 <= j < s1.len() && Self::frame_pending(#[trigger] s1[j], k);
                                if j == n - 1 {
                                    if exists|m: int|
                                        ii <= m < tv.entries@.len() && (
                                        #[trigger] tv.entries@[m]).0 == k {
                                        let m = choose|m: int|
                                            ii <= m < tv.entries@.len() && (
                                            #[trigger] tv.entries@[m]).0 == k;
                                        assert(ii < tv.entries@.len());
                                        assert(tv.entries@[m].0 >= tv.entries@[ii].0);
                                        lemma_upper_monotone(hi, tv.entries@[ii].0, k);
                                        assert(false);
                                    } else if exists|c2: int|
                                        ii <= c2 < tv.children@.len() && (
                                        #[trigger] tv.children@[c2]).as_map().contains_key(k) {
                                        let c2 = choose|c2: int|
                                            ii <= c2 < tv.children@.len() && (
                                            #[trigger] tv.children@[c2]).as_map().contains_key(k);
                                        if c2 == ii {
                                            assert(c.node_wf());
                                            Self::lemma_map_pending(s2[n - 1], k);
                                        } else {
                                            assert(ii < tv.entries@.len());
                                            assert(k > tv.key_at(c2 - 1));
                                            assert(tv.entries@[c2 - 1].0 >= tv.entries@[ii].0);
                                            lemma_upper_monotone(hi, tv.entries@[ii].0, k);
                                            assert(false);
                                        }
                                    } else {
                                        assert(Self::frame_pending(s2[n - 1], k));
                                    }
                                } else {
                                    assert(s2[j] == s1[j]);
                                    assert(Self::frame_pending(s2[j], k));
                                }
                            }
                        }
                        assert forall|k: i64| Self::stack_pending(s2, k) implies Self::stack_pending(
                            s1,
                            k,
                        ) by {
                            let j = choose|j: int|
                                0 <= j < s2.len() && Self::frame_pending(#[trigger] s2[j], k);
                            if j == n - 1 {
                                assert(c.node_wf());
                                Self::lemma_pending_in_map(s2[j], k);
                                if c.as_map().contains_key(k) {
                                    Self::lemma_mk_pending_child(s1[n - 1], ii, k);
                                } else {
                                    assert(Self::frame_pending(s1[n - 1], k));
                                }
                            } else {
                                assert(s2[j] == s1[j]);
                                assert(Self::frame_pending(s1[j], k));
                            }
                        }
                        assert forall|j1: int, j2: int, k1: i64, k2: i64|
                            #![trigger Self::frame_pending(s2[j1], k1), Self::frame_pending(s2[j2], k2)]
                            0 <= j1 < j2 < s2.len() && Self::frame_pending(s2[j1], k1)
                                && Self::frame_pending(s2[j2], k2) implies k2 < k1 by {
                            assert(Self::frame_pending(s1[j1], k1));
                            if j2 == n - 1 {
                                assert(c.node_wf());
                                Self::lemma_pending_in_map(s2[j2], k2);
                                if c.as_map().contains_key(k2) {
                                    Self::lemma_mk_pending_child(s1[n - 1], ii, k2);
                                } else {
                                    assert(Self::frame_pending(s1[n - 1], k2));
                                }
                            } else {
                                assert(Self::frame_pending(s1[j2], k2));
                            }
                        }
                        Self::lemma_work_step(s1, s2, n - 1);
                        assert(Self::frame_work(s2[n - 1]) < Self::frame_work(s1[n - 1])) by {
                            assert(Self::kids_size(tv.children@, ii) == c.tree_size()
                                + Self::kids_size(tv.children@, ii + 1));
                        }
                    }
                }
            } else {
                if i < t.entries.len() && hi.admits_from_above(t.entries[i].0) {
                    // A qualifying leaf entry: this is the least undecided
                    // key, so it goes out next.
                    out.push(t.entries[i]);
                    stack.set(n - 1, (t, i + 1, f.2));
                    proof {
                        let s2 = stack@;
                        let e = tv.entries@[ii];
                        assert(tv.as_map().contains_key(e.0) && tv.as_map()[e.0] == e.1);
                        Self::lemma_mk_pending_local(s1[n - 1], ii, e.0);
                        assert(Self::stack_pending(s1, e.0)) by {
                            assert(Self::frame_pending(s1[n - 1], e.0));
                        }
                        assert(out@ == out1.push(e));
                        assert forall|a: int, b: int|
                            0 <= a < b < out@.len() implies out@[a].0 < out@[b].0 by {
                            if b == out@.len() - 1 {
                                assert(out@[a] == out1[a]);
                                assert(out1[a].0 < e.0);
                            } else {
                                assert(out@[a] == out1[a] && out@[b] == out1[b]);
                            }
                        }
                        assert forall|a: int, k: i64|
                            #![trigger out@[a], Self::stack_pending(s2, k)]
                            0 <= a < out@.len() && Self::stack_pending(s2, k) implies out@[a].0
                            < k by {
                            Self::lemma_pending_shrinks(s1, s2, n - 1);
                            assert(Self::stack_pending(s1, k));
                            if a < out1.len() {
                            } else {
                                let j = choose|j: int|
                                    0 <= j < s2.len() && Self::frame_pending(#[trigger] s2[j], k);
                                if j == n - 1 {
                                    Self::lemma_rest_above(tv, ii, k, f.2, e.0);
                                } else {
                                    assert(Self::frame_pending(s1[j], k) && Self::frame_pending(
                                        s1[n - 1],
                                        e.0,
                                    ));
                                }
                            }
                        }
                        assert forall|k: i64|
                            self.as_map().contains_key(k) && #[trigger] in_range(lo, hi, k) implies
                        (exists|a: int| 0 <= a < out@.len() && (#[trigger] out@[a]).0 == k)
                            || Self::stack_pending(s2, k) by {
                            if Self::stack_pending(s1, k) && !(exists|a: int|
                                0 <= a < out1.len() && (#[trigger] out1[a]).0 == k) {
                                let j = choose|j: int|
                                    0 <= j < s1.len() && Self::frame_pending(#[trigger] s1[j], k);
                                if j == n - 1 {
                                    if exists|m: int|
                                        ii <= m < tv.entries@.len() && (
                                        #[trigger] tv.entries@[m]).0 == k {
                                        let m = choose|m: int|
                                            ii <= m < tv.entries@.len() && (
                                            #[trigger] tv.entries@[m]).0 == k;
                                        if m == ii {
                                            assert(out@[out@.len() - 1].0 == k);
                                        } else {
                                            Self::lemma_mk_pending_local(s2[n - 1], m, k);
                                        }
                                    } else {
                                        assert(Self::frame_pending(s2[n - 1], k));
                                    }
                                } else {
                                    assert(s2[j] == s1[j]);
                                    assert(Self::frame_pending(s2[j], k));
                                }
                            } else if exists|a: int|
                                0 <= a < out1.len() && (#[trigger] out1[a]).0 == k {
                                let a = choose|a: int|
                                    0 <= a < out1.len() && (#[trigger] out1[a]).0 == k;
                                assert(out@[a].0 == k);
                            }
                        }
                        Self::lemma_pending_shrinks(s1, s2, n - 1);
                        Self::lemma_work_step(s1, s2, n - 1);
                    }
                } else {
                    // The leaf is exhausted under the upper bound: retire
                    // the frame, and hand over the entry it owed, which
                    // qualified when it was pushed.
                    stack.pop();
                    let ghost s2 = stack@;
                    proof {
                        assert(s2 =~= s1.drop_last());
                        assert forall|j: int| 0 <= j < s2.len() implies self.frame_ok(
                            #[trigger] s2[j],
                            lo,
                            hi,
                        ) by {
                            assert(s2[j] == s1[j]);
                        }
                    }
                    if let Some(e) = f.2 {
                        out.push(e);
                        proof {
                            assert(Self::frame_pending(s1[n - 1], e.0));
                            assert(Self::stack_pending(s1, e.0));
                            assert(out@ == out1.push(e));
                            assert forall|a: int, b: int|
                                0 <= a < b < out@.len() implies out@[a].0 < out@[b].0 by {
                                if b == out@.len() - 1 {
                                    assert(out@[a] == out1[a]);
                                    assert(out1[a].0 < e.0);
                                } else {
                                    assert(out@[a] == out1[a] && out@[b] == out1[b]);
                                }
                            }
                            assert forall|a: int, k: i64|
                                #![trigger out@[a], Self::stack_pending(s2, k)]
                                0 <= a < out@.len() && Self::stack_pending(s2, k) implies out@[a].0
                                < k by {
                                let j = choose|j: int|
                                    0 <= j < s2.len() && Self::frame_pending(#[trigger] s2[j], k);
                                assert(Self::frame_pending(s1[j], k));
                                assert(Self::stack_pending(s1, k));
                                if a == out@.len() - 1 {
                                    assert(Self::frame_pending(s1[n - 1], e.0));
                                    assert(k > e.0);
                                }
                            }
                        }
                    }
                    proof {
                        let ghost e2 = f.2;
                        assert forall|j: int| 0 <= j < s2.len() implies #[trigger] s2[j]
                            == s1[j] by {}
                        if e2 is Some {
                            assert(out@ == out1.push(e2.unwrap()));
                        } else {
                            assert(out@ == out1);
                        }
                        assert forall|a: int, k: i64|
                            #![trigger out@[a], Self::stack_pending(s2, k)]
                            0 <= a < out@.len() && Self::stack_pending(s2, k) implies out@[a].0
                            < k by {
                            let j = choose|j: int|
                                0 <= j < s2.len() && Self::frame_pending(#[trigger] s2[j], k);
                            assert(Self::frame_pending(s1[j], k));
                            assert(Self::stack_pending(s1, k));
                            if a < out1.len() {
                                assert(out@[a] == out1[a]);
                            } else {
                                if let Some(ee) = e2 {
                                    assert(out@[a] == ee);
                                    assert(Self::frame_pending(s1[n - 1], ee.0));
                                    assert(k > ee.0);
                                }
                            }
                        }
                        assert forall|j1: int, j2: int, k1: i64, k2: i64|
                            #![trigger Self::frame_pending(s2[j1], k1), Self::frame_pending(s2[j2], k2)]
                            0 <= j1 < j2 < s2.len() && Self::frame_pending(s2[j1], k1)
                                && Self::frame_pending(s2[j2], k2) implies k2 < k1 by {
                            assert(Self::frame_pending(s1[j1], k1));
                            assert(Self::frame_pending(s1[j2], k2));
                        }
                        assert forall|k: i64|
                            self.as_map().contains_key(k) && #[trigger] in_range(lo, hi, k) implies
                        (exists|a: int| 0 <= a < out@.len() && (#[trigger] out@[a]).0 == k)
                            || Self::stack_pending(s2, k) by {
                            if Self::stack_pending(s1, k) && !(exists|a: int|
                                0 <= a < out1.len() && (#[trigger] out1[a]).0 == k) {
                                let j = choose|j: int|
                                    0 <= j < s1.len() && Self::frame_pending(#[trigger] s1[j], k);
                                if j == n - 1 {
                                    if exists|m: int|
                                        ii <= m < tv.entries@.len() && (
                                        #[trigger] tv.entries@[m]).0 == k {
                                        let m = choose|m: int|
                                            ii <= m < tv.entries@.len() && (
                                            #[trigger] tv.entries@[m]).0 == k;
                                        assert(ii < tv.entries@.len());
                                        assert(tv.entries@[m].0 >= tv.entries@[ii].0);
                                        lemma_upper_monotone(hi, tv.entries@[ii].0, k);
                                        assert(false);
                                    } else {
                                        assert(e2 matches Some(e) && e.0 == k);
                                        assert(out@[out@.len() - 1].0 == k);
                                    }
                                } else {
                                    assert(Self::frame_pending(s2[j], k));
                                }
                            } else if exists|a: int|
                                0 <= a < out1.len() && (#[trigger] out1[a]).0 == k {
                                let a = choose|a: int|
                                    0 <= a < out1.len() && (#[trigger] out1[a]).0 == k;
                                assert(out@[a].0 == k);
                            }
                        }
                        assert(Self::stack_work(s2) < Self::stack_work(s1)) by {
                            assert(Self::stack_work(s1) == Self::stack_work(s1.drop_last())
                                + Self::frame_work(s1.last()));
                        }
                    }
                }
            }
        }
        proof {
            assert forall|k: i64|
                self@.contains_key(k) && in_range(lo, hi, k) implies exists|a: int|
                0 <= a < out@.len() && (#[trigger] out@[a]).0 == k by {
                assert(!Self::stack_pending(stack@, k));
            }
        }
        out
    }

    /// A frame owes the key of one of its remaining entries.
    pub(crate) proof fn lemma_mk_pending_local(
        f: (&SimpleTree<V>, usize, Option<(i64, V)>),
        m: int,
        k: i64,
    )
        requires
            f.1 <= m < f.0.entries@.len(),
            f.0.entries@[m].0 == k,
        ensures
            Self::frame_pending(f, k),
    {
        let t = *f.0;
        assert(t.entries@[m].0 == k);
    }

    /// A frame owes every key of one of its remaining subtrees.
    pub(crate) proof fn lemma_mk_pending_child(
        f: (&SimpleTree<V>, usize, Option<(i64, V)>),
        c: int,
        k: i64,
    )
        requires
            f.1 <= c < f.0.children@.len(),
            f.0.children@[c].as_map().contains_key(k),
        ensures
            Self::frame_pending(f, k),
    {
        let t = *f.0;
        assert(t.children@[c].as_map().contains_key(k));
    }

    /// A frame that still stands at its start owes every key of its node.
    pub(crate) proof fn lemma_map_pending(f: (&SimpleTree<V>, usize, Option<(i64, V)>), k: i64)
        requires
            f.1 == 0,
            f.0.node_wf(),
            f.0.as_map().contains_key(k),
        ensures
            Self::frame_pending(f, k),
    {
        let t = *f.0;
        Self::lemma_node_map(t);
        if t.has_local(k) {
            let m = choose|m: int| 0 <= m < t.entries@.len() && (#[trigger] t.entries@[m]).0 == k;
            Self::lemma_mk_pending_local(f, m, k);
        } else {
            let c = choose|c: int|
                0 <= c < t.children@.len() && (#[trigger] t.children@[c]).as_map().contains_key(k);
            Self::lemma_mk_pending_child(f, c, k);
        }
    }

    /// Every key a frame owes is a key of its node or its inherited entry.
    pub(crate) proof fn lemma_pending_in_map(f: (&SimpleTree<V>, usize, Option<(i64, V)>), k: i64)
        requires
            f.0.node_wf(),
            Self::frame_pending(f, k),
        ensures
            f.0.as_map().contains_key(k) || (f.2 matches Some(e) && e.0 == k),
    {
        let t = *f.0;
        let i = f.1 as int;
        Self::lemma_node_map(t);
        if exists|m: int| i <= m < t.entries@.len() && (#[trigger] t.entries@[m]).0 == k {
            let m = choose|m: int| i <= m < t.entries@.len() && (#[trigger] t.entries@[m]).0 == k;
            assert(t.as_map().contains_key(t.entries@[m].0));
        } else if exists|c: int|
            i <= c < t.children@.len() && (#[trigger] t.children@[c]).as_map().contains_key(k) {
            let c = choose|c: int|
                i <= c < t.children@.len() && (#[trigger] t.children@[c]).as_map().contains_key(k);
            assert(t.as_map().contains_key(k));
        }
    }

    /// Every key a frame still owes past position `i`, its inherited entry
    /// included, lies strictly above the key of the entry at `i`.
    pub(crate) proof fn lemma_rest_above(
        tv: Self,
        ii: int,
        k: i64,
        aft: Option<(i64, V)>,
        e0: i64,
    )
        requires
            tv.node_wf(),
            0 <= ii < tv.entries@.len(),
            e0 <= tv.entries@[ii].0,
            (exists|m: int| ii + 1 <= m < tv.entries@.len() && (#[trigger] tv.entries@[m]).0 == k)
                || (exists|c: int|
                ii + 1 <= c < tv.children@.len() && (#[trigger] tv.children@[c]).as_map(
                ).contains_key(k)) || (aft matches Some(e) && e.0 == k && (forall|k2: i64|
                #[trigger] tv.as_map().contains_key(k2) ==> k2 < e.0)),
        ensures
            k > e0,
    {
        Self::lemma_node_map(tv);
        if exists|m: int| ii + 1 <= m < tv.entries@.len() && (#[trigger] tv.entries@[m]).0 == k {
            let m = choose|m: int|
                ii + 1 <= m < tv.entries@.len() && (#[trigger] tv.entries@[m]).0 == k;
            assert(tv.entries@[ii].0 < tv.entries@[m].0);
        } else if exists|c: int|
            ii + 1 <= c < tv.children@.len() && (#[trigger] tv.children@[c]).as_map().contains_key(
                k,
            ) {
            let c = choose|c: int|
                ii + 1 <= c < tv.children@.len() && (#[trigger] tv.children@[c]).as_map(
                ).contains_key(k);
            assert(k > tv.key_at(c - 1));
            assert(tv.entries@[ii].0 <= tv.entries@[c - 1].0);
        } else {
            assert(tv.as_map().contains_key(tv.entries@[ii].0));
        }
    }

    /// When only the top frame changed, and it only advanced, every owed
    /// key of the new stack was owed by the old one, and the stack keeps
    /// its ordering: deeper frames owe only larger keys.
    pub(crate) proof fn lemma_pending_shrinks(
        s1: Seq<(&SimpleTree<V>, usize, Option<(i64, V)>)>,
        s2: Seq<(&SimpleTree<V>, usize, Option<(i64, V)>)>,
        top: int,
    )
        requires
            s1.len() == s2.len(),
            0 <= top < s1.len(),
            forall|j: int| 0 <= j < s1.len() && j != top ==> s2[j] == s1[j],
            s2[top].0 == s1[top].0 && s2[top].1 >= s1[top].1 && s2[top].2 == s1[top].2,
            forall|j1: int, j2: int, k1: i64, k2: i64|
                #![trigger Self::frame_pending(s1[j1], k1), Self::frame_pending(s1[j2], k2)]
                0 <= j1 < j2 < s1.len() && Self::frame_pending(s1[j1], k1)
                    && Self::frame_pending(s1[j2], k2) ==> k2 < k1,
        ensures
            forall|k: i64| Self::stack_pending(s2, k) ==> Self::stack_pending(s1, k),
            forall|j1: int, j2: int, k1: i64, k2: i64|
                #![trigger Self::frame_pending(s2[j1], k1), Self::frame_pending(s2[j2], k2)]
                0 <= j1 < j2 < s2.len() && Self::frame_pending(s2[j1], k1)
                    && Self::frame_pending(s2[j2], k2) ==> k2 < k1,
    {
        assert forall|k: i64| Self::stack_pending(s2, k) implies Self::stack_pending(s1, k) by {
            let j = choose|j: int| 0 <= j < s2.len() && Self::frame_pending(#[trigger] s2[j], k);
            if j == top {
                Self::lemma_frame_pending_mono(s1[top], s2[top], k);
            }
            assert(Self::frame_pending(s1[j], k));
        }
        assert forall|j1: int, j2: int, k1: i64, k2: i64|
            0 <= j1 < j2 < s2.len() && #[trigger] Self::frame_pending(s2[j1], k1)
                && #[trigger] Self::frame_pending(s2[j2], k2) implies k2 < k1 by {
            if j1 == top {
                Self::lemma_frame_pending_mono(s1[top], s2[top], k1);
            }
            if j2 == top {
                Self::lemma_frame_pending_mono(s1[top], s2[top], k2);
            }
            assert(Self::frame_pending(s1[j1], k1));
            assert(Self::frame_pending(s1[j2], k2));
        }
    }

    /// Advancing a frame's position only retires owed keys.
    pub(crate) proof fn lemma_frame_pending_mono(
        f1: (&SimpleTree<V>, usize, Option<(i64, V)>),
        f2: (&SimpleTree<V>, usize, Option<(i64, V)>),
        k: i64,
    )
        requires
            f2.0 == f1.0,
            f2.1 >= f1.1,
            f2.2 == f1.2,
            Self::frame_pending(f2, k),
        ensures
            Self::frame_pending(f1, k),
    {
    }

    /// Work bookkeeping for a step that rewrites the top frame in place.
    pub(crate) proof fn lemma_work_step(
        s1: Seq<(&SimpleTree<V>, usize, Option<(i64, V)>)>,
        s2: Seq<(&SimpleTree<V>, usize, Option<(i64, V)>)>,
        top: int,
    )
        requires
            s1.len() == s2.len(),
            top == s1.len() - 1,
            0 <= top,
            forall|j: int| 0 <= j < s1.len() && j != top ==> s2[j] == s1[j],
        ensures
            Self::stack_work(s2) == Self::stack_work(s1) - Self::frame_work(s1[top])
                + Self::frame_work(s2[top]),
    {
        assert(s2.drop_last() =~= s1.drop_last());
    }

    /// Work bookkeeping for a step that rewrites the old top and pushes a
    /// new frame above it.
    pub(crate) proof fn lemma_work_push(
        s1: Seq<(&SimpleTree<V>, usize, Option<(i64, V)>)>,
        s2: Seq<(&SimpleTree<V>, usize, Option<(i64, V)>)>,
        top: int,
    )
        requires
            s2.len() == s1.len() + 1,
            top == s1.len() - 1,
            0 <= top,
            forall|j: int| 0 <= j < s1.len() && j != top ==> s2[j] == s1[j],
        ensures
            Self::stack_work(s2) == Self::stack_work(s1) - Self::frame_work(s1[top])
                + Self::frame_work(s2[top]) + Self::frame_work(s2[s2.len() - 1]),
    {
        assert(s2.drop_last().drop_last() =~= s1.drop_last());
        assert(Self::stack_work(s2.drop_last()) == Self::stack_work(s2.drop_last().drop_last())
            + Self::frame_work(s2.drop_last().last()));
        assert(s2.drop_last().last() == s2[top]);
    }
}

} // verus!
