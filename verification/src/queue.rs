//! A binary min-heap of `(key, node)` entries: the priority queue that the
//! shortest-path search drains in order of tentative distance.

use vstd::multiset::Multiset;
use vstd::prelude::*;
use vstd::seq_lib::*;

verus! {

/// One queued item: a node together with the key it was queued under.
#[derive(Clone, Copy, Debug)]
pub struct Entry {
    pub key: i32,
    pub node: usize,
}

/// A min-priority queue. Its view is the multiset of the entries it holds.
pub struct MinQueue {
    items: Vec<Entry>,
}

/// Position of the parent of slot `i` in the implicit binary tree.
spec fn parent(i: int) -> int {
    (i - 1) / 2
}

/// Slot `i` is not smaller than its parent.
spec fn heap_at(s: Seq<Entry>, i: int) -> bool {
    s[parent(i)].key <= s[i].key
}

/// Every slot but the root is not smaller than its parent.
spec fn is_heap(s: Seq<Entry>) -> bool {
    forall|i: int| 0 < i < s.len() ==> #[trigger] heap_at(s, i)
}

/// Heap order with one possible exception: slot `k` may be smaller than its
/// parent. The children of `k` are already not smaller than the parent of `k`.
spec fn heap_but_above(s: Seq<Entry>, k: int) -> bool {
    &&& forall|i: int| 0 < i < s.len() && i != k ==> #[trigger] heap_at(s, i)
    &&& forall|c: int|
        0 < k && 0 < c < s.len() && #[trigger] parent(c) == k ==> s[parent(k)].key <= s[c].key
}

/// Heap order with one possible exception: slot `k` may be larger than its
/// children. The children of `k` are already not smaller than the parent of `k`.
spec fn heap_but_below(s: Seq<Entry>, k: int) -> bool {
    &&& forall|i: int| 0 < i < s.len() && parent(i) != k ==> #[trigger] heap_at(s, i)
    &&& forall|c: int|
        0 < k && 0 < c < s.len() && #[trigger] parent(c) == k ==> s[parent(k)].key <= s[c].key
}

/// In a heap the root is a minimum.
proof fn lemma_root_is_min(s: Seq<Entry>, i: int)
    requires
        is_heap(s),
        0 <= i < s.len(),
    ensures
        s[0].key <= s[i].key,
    decreases i,
{
    if i > 0 {
        assert(heap_at(s, i));
        lemma_root_is_min(s, parent(i));
    }
}

/// Overwriting one slot takes the old item out of the multiset and puts the new one in.
proof fn lemma_update_multiset(s: Seq<Entry>, i: int, e: Entry)
    requires
        0 <= i < s.len(),
    ensures
        s.update(i, e).to_multiset() == s.to_multiset().remove(s[i]).insert(e),
        s.to_multiset().count(s[i]) > 0,
{
    broadcast use group_to_multiset_ensures;

    assert(s.update(i, e) =~= s.remove(i).insert(i, e));
    assert(s.contains(s[i]));
}

/// Exchanging two slots keeps the multiset.
proof fn lemma_exchange_multiset(s: Seq<Entry>, i: int, j: int)
    requires
        0 <= i < s.len(),
        0 <= j < s.len(),
    ensures
        s.update(i, s[j]).update(j, s[i]).to_multiset() == s.to_multiset(),
{
    broadcast use vstd::multiset::group_multiset_axioms;

    let s1 = s.update(i, s[j]);
    lemma_update_multiset(s, i, s[j]);
    lemma_update_multiset(s, j, s[i]);
    lemma_update_multiset(s1, j, s[i]);
    if i == j {
        assert(s1.update(j, s[i]) =~= s);
    } else {
        assert(s1[j] == s[j]);
        assert(s1.update(j, s[i]).to_multiset() =~= s.to_multiset());
    }
}

impl View for MinQueue {
    type V = Multiset<Entry>;

    closed spec fn view(&self) -> Multiset<Entry> {
        self.items@.to_multiset()
    }
}

impl MinQueue {
    /// The heap order that every operation keeps.
    pub closed spec fn wf(&self) -> bool {
        is_heap(self.items@)
    }

    /// An empty queue.
    pub fn new() -> (q: Self)
        ensures
            q.wf(),
            q@ == Multiset::<Entry>::empty(),
    {
        let q = MinQueue { items: Vec::new() };
        proof {
            broadcast use group_to_multiset_ensures;
            broadcast use vstd::multiset::group_multiset_axioms;

            assert(q.items@.to_multiset().len() == 0);
            assert(q.items@.to_multiset() =~= Multiset::<Entry>::empty());
        }
        q
    }

    /// Number of entries held.
    pub fn len(&self) -> (n: usize)
        ensures
            n == self@.len(),
    {
        proof {
            broadcast use group_to_multiset_ensures;

        }
        self.items.len()
    }

    /// Whether the queue holds nothing.
    pub fn is_empty(&self) -> (b: bool)
        ensures
            b <==> self@.len() == 0,
    {
        proof {
            broadcast use group_to_multiset_ensures;

        }
        self.items.len() == 0
    }

    fn exchange(&mut self, i: usize, j: usize)
        requires
            i < old(self).items.len(),
            j < old(self).items.len(),
        ensures
            final(self).items@ == old(self).items@.update(i as int, old(self).items@[j as int]).update(
                j as int,
                old(self).items@[i as int],
            ),
            final(self).items@.to_multiset() == old(self).items@.to_multiset(),
    {
        proof {
            lemma_exchange_multiset(self.items@, i as int, j as int);
        }
        let a = self.items[i];
        let b = self.items[j];
        self.items[i] = b;
        self.items[j] = a;
    }

    /// Adds one entry.
    pub fn push(&mut self, e: Entry)
        requires
            old(self).wf(),
        ensures
            final(self).wf(),
            final(self)@ == old(self)@.insert(e),
            final(self)@.len() == old(self)@.len() + 1,
    {
        proof {
            broadcast use group_to_multiset_ensures;

        }
        self.items.push(e);
        let mut k: usize = self.items.len() - 1;
        assert(heap_but_above(self.items@, k as int)) by {
            assert forall|i: int| 0 < i < self.items@.len() && i != k implies #[trigger] heap_at(
                self.items@,
                i,
            ) by {
                assert(heap_at(old(self).items@, i));
            }
        }
        while k > 0 && self.items[(k - 1) / 2].key > self.items[k].key
            invariant
                k < self.items.len(),
                self.items@.to_multiset() == old(self).items@.to_multiset().insert(e),
                heap_but_above(self.items@, k as int),
            decreases k,
        {
            let p: usize = (k - 1) / 2;
            let ghost before = self.items@;
            self.exchange(p, k);
            assert(heap_but_above(self.items@, p as int)) by {
                let after = self.items@;
                assert forall|i: int| 0 < i < after.len() && i != p implies #[trigger] heap_at(
                    after,
                    i,
                ) by {
                    if i != k {
                        assert(heap_at(before, i));
                    }
                    if parent(i) == k {
                        assert(parent(i) == k as int);
                    }
                }
                assert forall|c: int|
                    0 < p && 0 < c < after.len() && #[trigger] parent(c) == p implies after[parent(
                    p as int,
                )].key <= after[c].key by {
                    assert(heap_at(before, p as int));
                    if c != k {
                        assert(heap_at(before, c));
                    }
                }
            }
            k = p;
        }
        assert(is_heap(self.items@)) by {
            assert forall|i: int| 0 < i < self.items@.len() implies #[trigger] heap_at(
                self.items@,
                i,
            ) by {
                if i == k {
                    assert(heap_at(self.items@, k as int));
                }
            }
        }
    }

    /// Takes out an entry of least key, if there is any entry.
    pub fn pop(&mut self) -> (r: Option<Entry>)
        requires
            old(self).wf(),
        ensures
            final(self).wf(),
            match r {
                None => old(self)@.len() == 0 && final(self)@ == old(self)@,
                Some(e) => {
                    &&& old(self)@.count(e) > 0
                    &&& forall|x: Entry| old(self)@.count(x) > 0 ==> e.key <= x.key
                    &&& final(self)@ == old(self)@.remove(e)
                    &&& final(self)@.len() + 1 == old(self)@.len()
                },
            },
    {
        proof {
            broadcast use group_to_multiset_ensures;

        }
        let n: usize = self.items.len();
        if n == 0 {
            return None;
        }
        let ghost full = self.items@;
        let top = self.items[0];
        assert forall|x: Entry| full.to_multiset().count(x) > 0 implies top.key <= x.key by {
            assert(full.contains(x));
            let i = choose|i: int| 0 <= i < full.len() && full[i] == x;
            lemma_root_is_min(full, i);
        }
        assert(full.contains(top));
        let last = self.items.pop().unwrap();
        let ghost rest = self.items@;
        assert(full =~= rest.push(last));
        if n == 1 {
            proof {
                broadcast use vstd::multiset::group_multiset_axioms;

                assert(rest.to_multiset() =~= full.to_multiset().remove(top));
            }
            return Some(top);
        }
        self.items[0] = last;
        proof {
            broadcast use vstd::multiset::group_multiset_axioms;

            lemma_update_multiset(rest, 0, last);
            assert(self.items@.to_multiset() =~= full.to_multiset().remove(top));
            assert forall|i: int| 0 < i < self.items@.len() && parent(i) != 0 implies #[trigger] heap_at(
                self.items@,
                i,
            ) by {
                assert(heap_at(full, i));
            }
        }
        let len: usize = n - 1;
        let mut k: usize = 0;
        loop
            invariant
                len == self.items.len(),
                k < len,
                self.items@.to_multiset() == full.to_multiset().remove(top),
                heap_but_below(self.items@, k as int),
            ensures
                len == self.items.len(),
                self.items@.to_multiset() == full.to_multiset().remove(top),
                is_heap(self.items@),
            decreases len - k,
        {
            if k >= len / 2 {
                assert forall|i: int| 0 < i < self.items@.len() implies #[trigger] heap_at(
                    self.items@,
                    i,
                ) by {
                    assert(parent(i) != k);
                }
                break ;
            }
            let left: usize = 2 * k + 1;
            let right: usize = left + 1;
            let mut c: usize = left;
            if right < len && self.items[right].key < self.items[left].key {
                c = right;
            }
            if self.items[k].key <= self.items[c].key {
                assert forall|i: int| 0 < i < self.items@.len() implies #[trigger] heap_at(
                    self.items@,
                    i,
                ) by {
                    if parent(i) == k {
                        assert(i == left || i == right);
                    }
                }
                break ;
            }
            let ghost before = self.items@;
            self.exchange(k, c);
            assert(heap_but_below(self.items@, c as int)) by {
                let after = self.items@;
                assert forall|i: int| 0 < i < after.len() && parent(i) != c implies #[trigger] heap_at(
                    after,
                    i,
                ) by {
                    if parent(i) == k {
                        assert(i == left || i == right);
                    } else {
                        assert(heap_at(before, i));
                        if i == k {
                            assert(parent(c as int) == k);
                        }
                    }
                }
                assert forall|d: int|
                    0 < c && 0 < d < after.len() && #[trigger] parent(d) == c implies after[parent(
                    c as int,
                )].key <= after[d].key by {
                    assert(heap_at(before, d));
                }
            }
            k = c;
        }
        Some(top)
    }
}

} // verus!
