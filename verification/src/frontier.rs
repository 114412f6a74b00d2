//! The search frontier: a bag of `(cost, node)` entries that hands out an
//! entry of least cost first.

use vstd::multiset::Multiset;
use vstd::prelude::*;

verus! {

broadcast use vstd::seq_lib::group_to_multiset_ensures;

/// A min-priority bag of `(cost, node)` entries, kept as a binary heap.
/// The same entry may be held several times.
pub struct Frontier {
    entries: Vec<(u128, usize)>,
}

impl View for Frontier {
    type V = Multiset<(u128, usize)>;

    closed spec fn view(&self) -> Multiset<(u128, usize)> {
        self.entries@.to_multiset()
    }
}

/// The place of the parent of place `k` in the heap.
spec fn parent(k: int) -> int {
    (k - 1) / 2
}

/// No entry costs less than its parent, except perhaps between place
/// `hole` and its parent when `above` is set, or between place `hole`
/// and its children when it is not. Across the hole the order holds:
/// no child of `hole` costs less than the parent of `hole`.
spec fn heap_but(s: Seq<(u128, usize)>, hole: int, above: bool) -> bool {
    &&& forall|k: int|
        0 < k < s.len() && (if above {
            k != hole
        } else {
            parent(k) != hole
        }) ==> s[parent(k)].0 <= (#[trigger] s[k]).0
    &&& forall|k: int|
        0 < k < s.len() && parent(k) == hole && hole > 0 ==> s[parent(hole)].0 <= (#[trigger] s[k]).0
}

/// No entry costs less than its parent.
spec fn is_heap(s: Seq<(u128, usize)>) -> bool {
    forall|k: int| 0 < k < s.len() ==> s[parent(k)].0 <= (#[trigger] s[k]).0
}

/// The root of a heap costs the least.
proof fn lemma_root_is_least(s: Seq<(u128, usize)>, k: int)
    requires
        is_heap(s),
        0 <= k < s.len(),
    ensures
        s[0].0 <= s[k].0,
    decreases k,
{
    if k > 0 {
        lemma_root_is_least(s, parent(k));
    }
}

/// Two entries that change places leave the bag as it was.
proof fn lemma_swap_keeps_bag(s: Seq<(u128, usize)>, i: int, j: int)
    requires
        0 <= i < s.len(),
        0 <= j < s.len(),
    ensures
        s.update(i, s[j]).update(j, s[i]).to_multiset() == s.to_multiset(),
{
    let s1 = s.update(i, s[j]);
    vstd::seq_lib::to_multiset_update(s, i, s[j]);
    vstd::seq_lib::to_multiset_update(s1, j, s[i]);
    if i == j {
        assert(s1.update(j, s[i]) =~= s);
    } else {
        assert(s1.update(j, s[i]).to_multiset() =~= s.to_multiset());
    }
}

impl Frontier {
    /// The entries are in heap order.
    pub closed spec fn wf(&self) -> bool {
        is_heap(self.entries@)
    }

    /// An empty frontier.
    pub fn new() -> (f: Frontier)
        ensures
            f.wf(),
            f@ == Multiset::<(u128, usize)>::empty(),
    {
        let f = Frontier { entries: Vec::new() };
        assert(f.entries@ =~= Seq::empty());
        f
    }

    /// How many entries the frontier holds.
    pub fn len(&self) -> (n: usize)
        ensures
            n == self@.len(),
    {
        self.entries.len()
    }

    /// Whether the frontier holds no entry.
    pub fn is_empty(&self) -> (b: bool)
        ensures
            b == (self@.len() == 0),
    {
        self.entries.len() == 0
    }

    /// Changes the places of the entries at `i` and `j`.
    fn swap(&mut self, i: usize, j: usize)
        requires
            i < old(self).entries@.len(),
            j < old(self).entries@.len(),
        ensures
            final(self).entries@ == old(self).entries@.update(i as int, old(self).entries@[j as int]).update(
                j as int,
                old(self).entries@[i as int],
            ),
            final(self)@ == old(self)@,
    {
        let a = self.entries[i];
        let b = self.entries[j];
        self.entries[i] = b;
        self.entries[j] = a;
        proof {
            lemma_swap_keeps_bag(old(self).entries@, i as int, j as int);
        }
    }

    /// Adds the entry `(cost, node)`.
    pub fn push(&mut self, cost: u128, node: usize)
        requires
            old(self).wf(),
        ensures
            final(self).wf(),
            final(self)@ == old(self)@.insert((cost, node)),
    {
        self.entries.push((cost, node));
        let mut i: usize = self.entries.len() - 1;
        while i > 0 && self.entries[(i - 1) / 2].0 > self.entries[i].0
            invariant
                i < self.entries@.len(),
                self@ == old(self)@.insert((cost, node)),
                heap_but(self.entries@, i as int, true),
            decreases i,
        {
            let p: usize = (i - 1) / 2;
            self.swap(i, p);
            i = p;
        }
    }

    /// Takes out an entry of least cost, or returns `None` when the
    /// frontier is empty. Among entries of equal cost any may come first.
    pub fn pop_min(&mut self) -> (e: Option<(u128, usize)>)
        requires
            old(self).wf(),
        ensures
            final(self).wf(),
            old(self)@.len() == 0 ==> e is None && final(self)@ == old(self)@,
            old(self)@.len() > 0 ==> e is Some,
            e matches Some(m) ==> {
                &&& old(self)@.count(m) > 0
                &&& final(self)@ == old(self)@.remove(m)
                &&& forall|x: (u128, usize)| old(self)@.count(x) > 0 ==> m.0 <= x.0
            },
    {
        let ghost before = self.entries@;
        let last = match self.entries.pop() {
            Some(last) => last,
            None => {
                return None;
            },
        };
        proof {
            assert(before.remove(before.len() - 1) =~= self.entries@);
            assert(before.contains(before[0]));
            assert forall|x: (u128, usize)| before.to_multiset().count(x) > 0 implies before[0].0
                <= x.0 by {
                assert(before.contains(x));
                let j = choose|j: int| 0 <= j < before.len() && before[j] == x;
                lemma_root_is_least(before, j);
            }
        }
        let n: usize = self.entries.len();
        if n == 0 {
            return Some(last);
        }
        let least = self.entries[0];
        self.entries[0] = last;
        proof {
            vstd::seq_lib::to_multiset_update(before.drop_last(), 0, last);
            assert(self@ =~= before.to_multiset().remove(least));
        }
        let mut i: usize = 0;
        let mut sinking: bool = true;
        while sinking
            invariant
                n == self.entries@.len(),
                i < n,
                self@ == before.to_multiset().remove(least),
                sinking ==> heap_but(self.entries@, i as int, false),
                !sinking ==> is_heap(self.entries@),
            decreases
                    (if sinking {
                        n - i
                    } else {
                        0
                    }),
        {
            let mut c: usize = i;
            if i < (n - 1) / 2 || (i == (n - 1) / 2 && 2 * i + 1 < n) {
                let left: usize = 2 * i + 1;
                if self.entries[left].0 < self.entries[c].0 {
                    c = left;
                }
                if left + 1 < n && self.entries[left + 1].0 < self.entries[c].0 {
                    c = left + 1;
                }
            }
            if c == i {
                sinking = false;
            } else {
                self.swap(i, c);
                i = c;
            }
        }
        Some(least)
    }
}

} // verus!
