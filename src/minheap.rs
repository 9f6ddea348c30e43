//! A binary min-heap of `(key, payload)` pairs kept in two parallel arrays.

use vstd::prelude::*;
use vstd::seq_lib::lemma_multiset_commutative;

verus! {

/// Position of the parent of a non-root slot.
pub open spec fn parent_of(i: int) -> int {
    (i - 1) / 2
}

/// Every non-root key is at least its parent's key.
pub open spec fn heap_ordered(keys: Seq<i32>) -> bool {
    forall|i: int| 0 < i < keys.len() ==> keys[parent_of(i)] <= #[trigger] keys[i]
}

/// `r` left a heap whose entries were `before`, and `after` remained: `r` was
/// an entry of least key.
pub open spec fn popped(
    before: Seq<(i32, usize)>,
    after: Seq<(i32, usize)>,
    r: (i32, usize),
) -> bool {
    &&& before.to_multiset() == after.to_multiset().insert(r)
    &&& forall|i: int| 0 <= i < before.len() ==> r.0 <= #[trigger] before[i].0
}

/// Two pops in a row give keys in non-decreasing order; so popping a heap
/// empty yields its keys sorted.
pub proof fn lemma_pops_nondecreasing(
    first: Seq<(i32, usize)>,
    second: Seq<(i32, usize)>,
    third: Seq<(i32, usize)>,
    r1: (i32, usize),
    r2: (i32, usize),
)
    requires
        popped(first, second, r1),
        popped(second, third, r2),
    ensures
        r1.0 <= r2.0,
{
    broadcast use vstd::seq_lib::group_to_multiset_ensures;

    assert(second.to_multiset().count(r2) > 0);
    assert(first.to_multiset().count(r2) > 0);
    assert(first.contains(r2));
    let i = choose|i: int| 0 <= i < first.len() && first[i] == r2;
    assert(r1.0 <= first[i].0);
}

/// Popping a heap until it is empty, with `states[k]` the entries before pop
/// `k` and `rs[k]` the pair it returned, yields the pairs in non-decreasing
/// key order, each as often as the heap held it.
pub proof fn lemma_pops_sorted(states: Seq<Seq<(i32, usize)>>, rs: Seq<(i32, usize)>)
    requires
        states.len() == rs.len() + 1,
        forall|k: int| 0 <= k < rs.len() ==> popped(states[k], states[k + 1], #[trigger] rs[k]),
        states.last().len() == 0,
    ensures
        forall|i: int, j: int| 0 <= i < j < rs.len() ==> (#[trigger] rs[i]).0 <= (#[trigger] rs[j]).0,
        rs.to_multiset() == states[0].to_multiset(),
    decreases rs.len(),
{
    broadcast use vstd::seq_lib::group_to_multiset_ensures;

    if rs.len() == 0 {
        assert(rs.to_multiset() =~= states[0].to_multiset()) by {
            assert forall|x: (i32, usize)| rs.to_multiset().count(x) == 0
                && states[0].to_multiset().count(x) == 0 by {
                assert(!rs.contains(x));
                assert(!states[0].contains(x));
            }
        }
    } else {
        let rest = rs.drop_first();
        let later = states.drop_first();
        assert forall|k: int| 0 <= k < rest.len() implies popped(
            later[k],
            later[k + 1],
            #[trigger] rest[k],
        ) by {
            assert(popped(states[k + 1], states[k + 2], rs[k + 1]));
        }
        lemma_pops_sorted(later, rest);
        assert(popped(states[0], states[1], rs[0]));
        assert forall|i: int, j: int| 0 <= i < j < rs.len() implies (#[trigger] rs[i]).0 <= (
        #[trigger] rs[j]).0 by {
            if i == 0 {
                assert(rest[j - 1] == rs[j]);
                assert(rest.contains(rs[j]));
                assert(states[1].to_multiset().count(rs[j]) > 0);
                assert(states[0].to_multiset().count(rs[j]) > 0);
                assert(states[0].contains(rs[j]));
                let m = choose|m: int| 0 <= m < states[0].len() && states[0][m] == rs[j];
                assert(rs[0].0 <= states[0][m].0);
            } else {
                assert(rest[i - 1] == rs[i] && rest[j - 1] == rs[j]);
            }
        }
        assert(rs.remove(0) =~= rest);
        assert(rs.to_multiset() =~= states[0].to_multiset()) by {
            assert(rs.to_multiset().count(rs[0]) > 0);
        }
    }
}

/// Heap order everywhere but between `hole` and its parent; the parent of
/// `hole` is still no greater than the children of `hole`.
spec fn ordered_above(keys: Seq<i32>, hole: int) -> bool {
    &&& forall|i: int| 0 < i < keys.len() && i != hole ==> keys[parent_of(i)] <= #[trigger] keys[i]
    &&& forall|i: int|
        0 < i < keys.len() && parent_of(i) == hole && hole > 0 ==> keys[parent_of(hole)]
            <= #[trigger] keys[i]
}

/// Heap order everywhere but between `hole` and its children; the parent of
/// `hole` is still no greater than the children of `hole`.
spec fn ordered_below(keys: Seq<i32>, hole: int) -> bool {
    &&& forall|i: int|
        0 < i < keys.len() && parent_of(i) != hole ==> keys[parent_of(i)] <= #[trigger] keys[i]
    &&& forall|i: int|
        0 < i < keys.len() && parent_of(i) == hole && hole > 0 ==> keys[parent_of(hole)]
            <= #[trigger] keys[i]
}

/// In a heap-ordered array the root key is the least.
proof fn lemma_root_is_least(keys: Seq<i32>, i: int)
    requires
        heap_ordered(keys),
        0 <= i < keys.len(),
    ensures
        keys[0] <= keys[i],
    decreases i,
{
    if i > 0 {
        lemma_root_is_least(keys, parent_of(i));
    }
}

/// Exchanging two entries keeps the multiset of entries.
proof fn lemma_swap_keeps_multiset<A>(s: Seq<A>, a: int, b: int)
    requires
        0 <= a < s.len(),
        0 <= b < s.len(),
    ensures
        s.update(a, s[b]).update(b, s[a]).to_multiset() == s.to_multiset(),
{
    let t = s.update(a, s[b]).update(b, s[a]);
    if a == b {
        assert(t =~= s);
    } else if a > b {
        assert(t =~= s.update(b, s[a]).update(a, s[b]));
        lemma_swap_ordered_keeps_multiset(s, b, a);
    } else {
        lemma_swap_ordered_keeps_multiset(s, a, b);
    }
}

proof fn lemma_swap_ordered_keeps_multiset<A>(s: Seq<A>, a: int, b: int)
    requires
        0 <= a < b < s.len(),
    ensures
        s.update(a, s[b]).update(b, s[a]).to_multiset() == s.to_multiset(),
{
    let t = s.update(a, s[b]).update(b, s[a]);
    {
        let p1 = s.subrange(0, a);
        let p2 = s.subrange(a + 1, b);
        let p3 = s.subrange(b + 1, s.len() as int);
        let x = seq![s[a]];
        let y = seq![s[b]];
        assert(s =~= p1 + (x + (p2 + (y + p3))));
        assert(t =~= p1 + (y + (p2 + (x + p3))));
        lemma_multiset_commutative(y, p3);
        lemma_multiset_commutative(x, p3);
        lemma_multiset_commutative(p2, y + p3);
        lemma_multiset_commutative(p2, x + p3);
        lemma_multiset_commutative(x, p2 + (y + p3));
        lemma_multiset_commutative(y, p2 + (x + p3));
        lemma_multiset_commutative(p1, x + (p2 + (y + p3)));
        lemma_multiset_commutative(p1, y + (p2 + (x + p3)));
        assert(t.to_multiset() =~= s.to_multiset());
    }
}

fn left_child(index: usize) -> (r: usize)
    requires
        index < usize::MAX / 2,
    ensures
        r == 2 * index + 1,
{
    2 * index + 1
}

fn right_child(index: usize) -> (r: usize)
    requires
        index < usize::MAX / 2,
    ensures
        r == 2 * index + 2,
{
    2 * index + 2
}

fn parent(index: usize) -> (r: usize)
    requires
        index > 0,
    ensures
        r == parent_of(index as int),
{
    (index - 1) / 2
}

/// A min-heap of `(key, payload)` pairs. Equal keys come out in no fixed order.
pub struct Heap {
    heap_vec: Vec<i32>,
    pointer_vec: Vec<usize>,
}

/// An empty heap.
pub fn initialize() -> (r: Heap)
    ensures
        r.wf(),
        r@ == Seq::<(i32, usize)>::empty(),
{
    let r = Heap { heap_vec: Vec::new(), pointer_vec: Vec::new() };
    assert(r@ =~= Seq::<(i32, usize)>::empty());
    r
}

impl View for Heap {
    type V = Seq<(i32, usize)>;

    /// The pairs in array order.
    closed spec fn view(&self) -> Seq<(i32, usize)> {
        Seq::new(self.heap_vec@.len(), |i: int| (self.heap_vec@[i], self.pointer_vec@[i]))
    }
}

impl Heap {
    /// The keys in array order.
    pub closed spec fn keys(&self) -> Seq<i32> {
        self.heap_vec@
    }

    /// Both arrays have one slot per entry and the keys are heap-ordered.
    pub closed spec fn wf(&self) -> bool {
        &&& self.heap_vec@.len() == self.pointer_vec@.len()
        &&& heap_ordered(self.heap_vec@)
    }

    /// The keys are those of the view, in the same order; in a well-formed heap
    /// each non-root key is at least its parent's, whatever pushes and pops came before.
    pub proof fn lemma_keys(&self)
        ensures
            self.keys().len() == self@.len(),
            forall|i: int| 0 <= i < self@.len() ==> #[trigger] self.keys()[i] == self@[i].0,
            self.wf() ==> heap_ordered(self.keys()),
    {
    }

    pub fn is_empty(&self) -> (r: bool)
        ensures
            r == (self@.len() == 0),
    {
        self.heap_vec.len() == 0
    }

    /// Adds a pair.
    pub fn push(&mut self, key: i32, value: usize)
        requires
            old(self).wf(),
        ensures
            final(self).wf(),
            final(self)@.to_multiset() == old(self)@.to_multiset().insert((key, value)),
            final(self)@.len() == old(self)@.len() + 1,
    {
        proof {
            broadcast use vstd::seq_lib::group_to_multiset_ensures;

        }
        let ghost before = self@;
        self.heap_vec.push(key);
        self.pointer_vec.push(value);
        assert(self@ =~= before.push((key, value)));
        let index = self.heap_vec.len() - 1;
        self.sift_up(index);
    }

    /// Removes and returns a pair of least key.
    pub fn pop(&mut self) -> (r: (i32, usize))
        requires
            old(self).wf(),
            old(self)@.len() > 0,
        ensures
            final(self).wf(),
            popped(old(self)@, final(self)@, r),
            final(self)@.len() == old(self)@.len() - 1,
    {
        proof {
            broadcast use vstd::seq_lib::group_to_multiset_ensures;

            assert forall|i: int| 0 <= i < old(self)@.len() implies self@[0].0
                <= #[trigger] old(self)@[i].0 by {
                lemma_root_is_least(self.heap_vec@, i);
            }
        }
        let last = self.heap_vec.len() - 1;
        self.swap(0, last);
        let ghost swapped = self@;
        let ret = (self.heap_vec.pop().unwrap(), self.pointer_vec.pop().unwrap());
        assert(swapped =~= self@.push(ret));
        self.sift_down(0);
        ret
    }

    fn swap(&mut self, index_a: usize, index_b: usize)
        requires
            old(self).heap_vec@.len() == old(self).pointer_vec@.len(),
            index_a < old(self)@.len(),
            index_b < old(self)@.len(),
        ensures
            final(self).heap_vec@.len() == final(self).pointer_vec@.len(),
            final(self)@ == old(self)@.update(index_a as int, old(self)@[index_b as int]).update(
                index_b as int,
                old(self)@[index_a as int],
            ),
            final(self).heap_vec@ == old(self).heap_vec@.update(
                index_a as int,
                old(self).heap_vec@[index_b as int],
            ).update(index_b as int, old(self).heap_vec@[index_a as int]),
            final(self)@.to_multiset() == old(self)@.to_multiset(),
    {
        proof {
            lemma_swap_keeps_multiset(self@, index_a as int, index_b as int);
        }
        let ghost before = self@;
        let temp1 = self.heap_vec[index_a];
        let temp2 = self.pointer_vec[index_a];
        let ka = self.heap_vec[index_b];
        self.heap_vec.set(index_a, ka);
        let pa = self.pointer_vec[index_b];
        self.pointer_vec.set(index_a, pa);
        self.heap_vec.set(index_b, temp1);
        self.pointer_vec.set(index_b, temp2);
        assert(self@ =~= before.update(index_a as int, before[index_b as int]).update(
            index_b as int,
            before[index_a as int],
        ));
    }

    /// Moves the entry at `index` towards the root until its parent is no greater.
    fn sift_up(&mut self, index: usize)
        requires
            old(self).heap_vec@.len() == old(self).pointer_vec@.len(),
            index < old(self)@.len(),
            ordered_above(old(self).heap_vec@, index as int),
        ensures
            final(self).wf(),
            final(self)@.to_multiset() == old(self)@.to_multiset(),
            final(self)@.len() == old(self)@.len(),
    {
        let mut index = index;
        while index > 0
            invariant
                self.heap_vec@.len() == self.pointer_vec@.len(),
                index < self@.len(),
                ordered_above(self.heap_vec@, index as int),
                self@.to_multiset() == old(self)@.to_multiset(),
                self@.len() == old(self)@.len(),
            decreases index,
        {
            let p = parent(index);
            if self.heap_vec[p] > self.heap_vec[index] {
                let ghost k = self.heap_vec@;
                self.swap(p, index);
                proof {
                    let n = self.heap_vec@;
                    assert forall|i: int| 0 < i < n.len() && i != p implies n[parent_of(i)]
                        <= #[trigger] n[i] by {
                        if i == index {
                        } else if parent_of(i) == index {
                            assert(k[parent_of(index as int)] <= k[i]);
                        } else if parent_of(i) == p {
                            assert(k[p as int] <= k[i]);
                        } else if i == p {
                            assert(k[parent_of(i)] <= k[i]);
                        }
                    }
                    assert forall|i: int|
                        0 < i < n.len() && parent_of(i) == p && p > 0 implies n[parent_of(
                            p as int,
                        )] <= #[trigger] n[i] by {
                        assert(k[parent_of(p as int)] <= k[p as int]);
                        if i != index {
                            assert(k[p as int] <= k[i]);
                        }
                    }
                }
                index = p;
            } else {
                proof {
                    let k = self.heap_vec@;
                    assert forall|i: int| 0 < i < k.len() implies k[parent_of(i)]
                        <= #[trigger] k[i] by {
                        if i == index {
                        }
                    }
                }
                return;
            }
        }
    }

    /// Moves the entry at `index` away from the root, each time exchanging it with
    /// its least child while that child is smaller.
    fn sift_down(&mut self, index: usize)
        requires
            old(self).heap_vec@.len() == old(self).pointer_vec@.len(),
            index < old(self)@.len() || old(self)@.len() == 0,
            ordered_below(old(self).heap_vec@, index as int),
        ensures
            final(self).wf(),
            final(self)@.to_multiset() == old(self)@.to_multiset(),
            final(self)@.len() == old(self)@.len(),
    {
        let mut index = index;
        let n = self.heap_vec.len();
        while index < n / 2
            invariant
                self.heap_vec@.len() == self.pointer_vec@.len(),
                n == self@.len(),
                index < n || n == 0,
                ordered_below(self.heap_vec@, index as int),
                self@.to_multiset() == old(self)@.to_multiset(),
                self@.len() == old(self)@.len(),
            decreases n - index,
        {
            let l = left_child(index);
            let r = right_child(index);
            let m = if r < n && self.heap_vec[r] < self.heap_vec[l] {
                r
            } else {
                l
            };
            if self.heap_vec[m] < self.heap_vec[index] {
                let ghost k = self.heap_vec@;
                self.swap(index, m);
                proof {
                    let s = self.heap_vec@;
                    assert forall|i: int| 0 < i < n && parent_of(i) != m implies s[parent_of(i)]
                        <= #[trigger] s[i] by {
                        if i == m {
                        } else if parent_of(i) == index {
                            assert(i == l || i == r);
                        } else if i == index {
                            assert(k[parent_of(index as int)] <= k[m as int]);
                        } else if parent_of(i) == m {
                        } else {
                            assert(k[parent_of(i)] <= k[i]);
                        }
                    }
                    assert forall|i: int|
                        0 < i < n && parent_of(i) == m && m > 0 implies s[parent_of(m as int)]
                        <= #[trigger] s[i] by {
                        assert(k[parent_of(i)] <= k[i]);
                    }
                }
                index = m;
            } else {
                proof {
                    let s = self.heap_vec@;
                    assert forall|i: int| 0 < i < n implies s[parent_of(i)] <= #[trigger] s[i] by {
                        if parent_of(i) == index {
                            assert(i == l || i == r);
                        }
                    }
                }
                return;
            }
        }
        proof {
            let s = self.heap_vec@;
            assert forall|i: int| 0 < i < n implies s[parent_of(i)] <= #[trigger] s[i] by {
                if parent_of(i) == index {
                    assert(false);
                }
            }
        }
    }
}

} // verus!
