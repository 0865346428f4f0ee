//! The queue of the shortest-path search: a binary min-heap of
//! `(cost, node)` entries.

use vstd::multiset::Multiset;
use vstd::prelude::*;

verus! {

/// Entries `(cost, node)` waiting to be expanded, the least on top.
pub struct CostQueue {
    items: Vec<(u32, u32)>,
}

/// The order of the entries: by cost, then by node.
pub open spec fn entry_le(a: (u32, u32), b: (u32, u32)) -> bool {
    a.0 < b.0 || (a.0 == b.0 && a.1 <= b.1)
}

/// Every entry is no less than its parent.
spec fn heap_ordered(s: Seq<(u32, u32)>) -> bool {
    forall|k: int| 0 < k < s.len() ==> entry_le(s[(k - 1) / 2], #[trigger] s[k])
}

/// The heap is in order but for the entry at `i`, which may be less than
/// its parent; the children of `i` are no less than the parent of `i`.
spec fn ordered_but_up(s: Seq<(u32, u32)>, i: int) -> bool {
    &&& forall|k: int| 0 < k < s.len() && k != i ==> entry_le(s[(k - 1) / 2], #[trigger] s[k])
    &&& i > 0 ==> forall|k: int|
        0 < k < s.len() && (k - 1) / 2 == i ==> entry_le(s[(i - 1) / 2], #[trigger] s[k])
}

/// The heap is in order but for the entry at `i`, which may be more than
/// its children; the children of `i` are no less than the parent of `i`.
spec fn ordered_but_down(s: Seq<(u32, u32)>, i: int) -> bool {
    &&& forall|k: int|
        0 < k < s.len() && (k - 1) / 2 != i ==> entry_le(s[(k - 1) / 2], #[trigger] s[k])
    &&& i > 0 ==> forall|k: int|
        0 < k < s.len() && (k - 1) / 2 == i ==> entry_le(s[(i - 1) / 2], #[trigger] s[k])
}

/// In a heap the top is no more than any entry.
proof fn lemma_top_is_least(s: Seq<(u32, u32)>, k: int)
    requires
        heap_ordered(s),
        0 <= k < s.len(),
    ensures
        entry_le(s[0], s[k]),
    decreases k,
{
    if k > 0 {
        lemma_top_is_least(s, (k - 1) / 2);
        assert(entry_le(s[(k - 1) / 2], s[k]));
    }
}

/// Exchanging two places of a sequence keeps what it holds.
proof fn lemma_swap_keeps(s: Seq<(u32, u32)>, i: int, j: int)
    requires
        0 <= i < s.len(),
        0 <= j < s.len(),
    ensures
        s.update(i, s[j]).update(j, s[i]).to_multiset() == s.to_multiset(),
{
    broadcast use vstd::seq_lib::group_to_multiset_ensures;

    let mid = s.update(i, s[j]);
    vstd::seq_lib::to_multiset_update(s, i, s[j]);
    vstd::seq_lib::to_multiset_update(mid, j, s[i]);
    assert(s.contains(s[i]) && s.contains(s[j]));
    if i == j {
        assert(mid.update(j, s[i]) =~= s);
    } else {
        assert(mid[j] == s[j]);
        assert(mid.update(j, s[i]).to_multiset() =~= s.to_multiset());
    }
}

impl CostQueue {
    /// The entries in the queue, each as often as it was put in and not
    /// yet taken out.
    pub closed spec fn contents(&self) -> Multiset<(u32, u32)> {
        self.items@.to_multiset()
    }

    /// Number of entries.
    pub closed spec fn size(&self) -> nat {
        self.items@.len()
    }

    /// The invariant of the queue: the entries are in heap order.
    pub closed spec fn wf(&self) -> bool {
        heap_ordered(self.items@)
    }

    /// The queue holds as many entries as it counts.
    pub proof fn lemma_size(&self)
        ensures
            self.size() == self.contents().len(),
    {
        broadcast use vstd::seq_lib::group_to_multiset_ensures;

    }

    /// An empty queue.
    pub fn new() -> (q: Self)
        ensures
            q.wf(),
            q.size() == 0,
            q.contents() == Multiset::<(u32, u32)>::empty(),
    {
        broadcast use vstd::seq_lib::group_to_multiset_ensures;

        let q = CostQueue { items: Vec::new() };
        proof {
            assert forall|e: (u32, u32)| q.items@.to_multiset().count(e) == 0 by {
                assert(!q.items@.contains(e));
            }
            assert(q.items@.to_multiset() =~= Multiset::<(u32, u32)>::empty());
        }
        q
    }

    /// Whether entry `a` goes strictly before entry `b`.
    fn before(a: (u32, u32), b: (u32, u32)) -> (r: bool)
        ensures
            r == !entry_le(b, a),
    {
        a.0 < b.0 || (a.0 == b.0 && a.1 < b.1)
    }

    /// Exchanges the entries at `i` and `j`.
    fn swap(&mut self, i: usize, j: usize)
        requires
            i < old(self).items@.len(),
            j < old(self).items@.len(),
        ensures
            final(self).items@ == old(self).items@.update(i as int, old(self).items@[j as int]).update(
                j as int,
                old(self).items@[i as int],
            ),
            final(self).contents() == old(self).contents(),
    {
        let a = self.items[i];
        let b = self.items[j];
        proof {
            lemma_swap_keeps(self.items@, i as int, j as int);
        }
        self.items.set(i, b);
        self.items.set(j, a);
    }

    /// Puts an entry into the queue.
    pub fn push(&mut self, entry: (u32, u32))
        requires
            old(self).wf(),
        ensures
            final(self).wf(),
            final(self).size() == old(self).size() + 1,
            final(self).contents() == old(self).contents().insert(entry),
    {
        broadcast use vstd::seq_lib::group_to_multiset_ensures;

        let ghost s0 = self.items@;
        self.items.push(entry);
        let mut i: usize = self.items.len() - 1;
        proof {
            assert forall|k: int| 0 < k < self.items@.len() && k != i implies entry_le(
                self.items@[(k - 1) / 2],
                #[trigger] self.items@[k],
            ) by {
                assert(entry_le(s0[(k - 1) / 2], s0[k]));
            }
        }
        while i > 0
            invariant
                i < self.items@.len(),
                self.items@.len() == old(self).items@.len() + 1,
                self.contents() == old(self).contents().insert(entry),
                ordered_but_up(self.items@, i as int),
            ensures
                self.items@.len() == old(self).items@.len() + 1,
                self.contents() == old(self).contents().insert(entry),
                heap_ordered(self.items@),
            decreases i,
        {
            let parent = (i - 1) / 2;
            let ghost s = self.items@;
            if Self::before(self.items[i], self.items[parent]) {
                self.swap(i, parent);
                proof {
                    let t = self.items@;
                    assert forall|k: int| 0 < k < t.len() && k != parent implies entry_le(
                        t[(k - 1) / 2],
                        #[trigger] t[k],
                    ) by {
                        if k == i {
                        } else if (k - 1) / 2 == i {
                            assert(entry_le(s[(i - 1) / 2], s[k]));
                        } else if (k - 1) / 2 == parent {
                            assert(entry_le(s[(k - 1) / 2], s[k]));
                        } else {
                            assert(entry_le(s[(k - 1) / 2], s[k]));
                        }
                    }
                    if parent > 0 {
                        assert(entry_le(s[(parent - 1) / 2], s[parent as int]));
                        assert forall|k: int|
                            0 < k < t.len() && (k - 1) / 2 == parent implies entry_le(
                            t[(parent - 1) / 2],
                            #[trigger] t[k],
                        ) by {
                            if k != i {
                                assert(entry_le(s[(k - 1) / 2], s[k]));
                            }
                        }
                    }
                }
                i = parent;
            } else {
                proof {
                    assert forall|k: int| 0 < k < s.len() implies entry_le(
                        s[(k - 1) / 2],
                        #[trigger] s[k],
                    ) by {}
                }
                break ;
            }
        }
        proof {
            assert forall|k: int| 0 < k < self.items@.len() implies entry_le(
                self.items@[(k - 1) / 2],
                #[trigger] self.items@[k],
            ) by {}
        }
    }

    /// Takes a least entry out of the queue; nothing when the queue is
    /// empty.
    pub fn pop(&mut self) -> (r: Option<(u32, u32)>)
        requires
            old(self).wf(),
        ensures
            final(self).wf(),
            old(self).size() == 0 ==> r is None && final(self).size() == 0 && final(self).contents()
                == old(self).contents(),
            old(self).size() > 0 ==> r is Some && old(self).contents().count(r->Some_0) > 0
                && final(self).contents() == old(self).contents().remove(r->Some_0)
                && final(self).size() == old(self).size() - 1,
            r is Some ==> forall|e: (u32, u32)|
                old(self).contents().count(e) > 0 ==> entry_le(r->Some_0, e),
    {
        broadcast use vstd::seq_lib::group_to_multiset_ensures;

        let len = self.items.len();
        if len == 0 {
            return None;
        }
        let ghost s0 = self.items@;
        self.swap(0, len - 1);
        let ghost swapped = self.items@;
        let top = self.items.pop().unwrap();
        proof {
            assert(self.items@ =~= swapped.remove(len - 1));
            assert(swapped.contains(top));
            assert(top == s0[0]);
            assert forall|e: (u32, u32)| old(self).contents().count(e) > 0 implies entry_le(
                top,
                e,
            ) by {
                assert(s0.contains(e));
                let k = choose|k: int| 0 <= k < s0.len() && s0[k] == e;
                lemma_top_is_least(s0, k);
            }
            let s1 = self.items@;
            assert forall|k: int| 0 < k < s1.len() && (k - 1) / 2 != 0 implies entry_le(
                s1[(k - 1) / 2],
                #[trigger] s1[k],
            ) by {
                assert(entry_le(s0[(k - 1) / 2], s0[k]));
            }
        }
        let n = self.items.len();
        let mut i: usize = 0;
        while i < n
            invariant
                n == self.items@.len(),
                self.items@.len() == old(self).items@.len() - 1,
                self.contents() == old(self).contents().remove(top),
                i < n ==> ordered_but_down(self.items@, i as int),
                i >= n ==> heap_ordered(self.items@),
            ensures
                self.items@.len() == old(self).items@.len() - 1,
                self.contents() == old(self).contents().remove(top),
                heap_ordered(self.items@),
            decreases n - i,
        {
            let ghost s = self.items@;
            let left = if i <= (n - 1) / 2 {
                2 * i + 1
            } else {
                n
            };
            if left >= n {
                proof {
                    assert forall|k: int| 0 < k < s.len() implies entry_le(
                        s[(k - 1) / 2],
                        #[trigger] s[k],
                    ) by {
                        if (k - 1) / 2 == i {
                            assert(k >= 2 * i + 1);
                        }
                    }
                }
                break ;
            }
            let right = left + 1;
            let mut least = i;
            if Self::before(self.items[left], self.items[least]) {
                least = left;
            }
            if right < n && Self::before(self.items[right], self.items[least]) {
                least = right;
            }
            if least == i {
                proof {
                    assert forall|k: int| 0 < k < s.len() implies entry_le(
                        s[(k - 1) / 2],
                        #[trigger] s[k],
                    ) by {
                        if (k - 1) / 2 == i {
                            assert(k == left || k == right);
                        }
                    }
                }
                break ;
            }
            self.swap(i, least);
            proof {
                let t = self.items@;
                assert forall|k: int|
                    0 < k < t.len() && (k - 1) / 2 != least implies entry_le(
                    t[(k - 1) / 2],
                    #[trigger] t[k],
                ) by {
                    if k == least {
                    } else if (k - 1) / 2 == i {
                        assert(k == left || k == right);
                    } else if k == i {
                        assert(entry_le(s[(i - 1) / 2], s[least as int]));
                    } else {
                        assert(entry_le(s[(k - 1) / 2], s[k]));
                    }
                }
                assert forall|k: int| 0 < k < t.len() && (k - 1) / 2 == least implies entry_le(
                    t[(least - 1) / 2],
                    #[trigger] t[k],
                ) by {
                    assert(entry_le(s[(k - 1) / 2], s[k]));
                }
            }
            i = least;
        }
        Some(top)
    }

    /// Number of entries.
    pub fn len(&self) -> (n: usize)
        ensures
            n == self.size(),
    {
        self.items.len()
    }
}

} // verus!
