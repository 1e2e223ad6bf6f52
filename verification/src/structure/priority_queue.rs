use vstd::prelude::*;

use core::cmp::Ordering;
use vstd::laws_cmp::obeys_cmp;
use vstd::laws_eq::obeys_concrete_eq;
use vstd::multiset::Multiset;
use vstd::std_specs::cmp::{OrdSpec, PartialEqSpec, PartialOrdSpec};

verus! {

broadcast use vstd::seq_lib::group_to_multiset_ensures;

/// Whether `T`'s comparison obeys the total-order laws and its equality is
/// plain structural equality: under this condition the heap order is provable.
pub open spec fn cmp_lawful<T: Ord>() -> bool {
    obeys_cmp::<T>() && obeys_concrete_eq::<T>()
}

/// `x` may stand above `y` in the heap: `x` compares less than or equal.
pub open spec fn heap_le<T: Ord>(x: T, y: T) -> bool {
    x.cmp_spec(&y) != Ordering::Greater
}

/// The parent index of heap slot `j`.
pub open spec fn hparent(j: int) -> int {
    (j - 1) / 2
}

/// Every slot compares at or above its children.
pub open spec fn heap_ordered<T: Ord>(v: Seq<T>) -> bool {
    forall|j: int| 1 <= j < v.len() ==> heap_le(v[hparent(j)], #[trigger] v[j])
}

/// Heap order except below the hole `h`: the slots whose parent is `h` may
/// be out of order with it.
spec fn heap_except_below<T: Ord>(v: Seq<T>, h: int) -> bool {
    forall|j: int| 1 <= j < v.len() && hparent(j) != h ==> heap_le(v[hparent(j)], #[trigger] v[j])
}

/// Heap order except at the hole `h` itself: `h` may be out of order with
/// its own parent.
spec fn heap_except_at<T: Ord>(v: Seq<T>, h: int) -> bool {
    forall|j: int| 1 <= j < v.len() && j != h ==> heap_le(v[hparent(j)], #[trigger] v[j])
}

/// The hole's own parent stands at or above the hole's children.
spec fn hole_bridged<T: Ord>(v: Seq<T>, h: int) -> bool {
    h == 0 || (forall|j: int|
        1 <= j < v.len() && hparent(j) == h ==> heap_le(v[hparent(h)], #[trigger] v[j]))
}

/// A binary min-heap over a growable array: `pop` hands out a least element.
#[derive(Debug)]
pub struct PriorityQueue<T>(Vec<T>);

impl<T: Ord> PriorityQueue<T> {
    /// The invariant: whenever the element type's comparison obeys the total
    /// order laws, the array is heap-ordered.
    pub closed spec fn wf(&self) -> bool {
        cmp_lawful::<T>() ==> heap_ordered(self.0@)
    }
}

impl<T: Ord> View for PriorityQueue<T> {
    type V = Multiset<T>;

    /// The multiset of queued elements.
    closed spec fn view(&self) -> Multiset<T> {
        self.0@.to_multiset()
    }
}

/// Total order facts, unfolded from the opaque law predicates of `obeys_cmp`.
proof fn lemma_cmp_facts<T: Ord>()
    requires
        cmp_lawful::<T>(),
    ensures
        forall|x: T, y: T| #[trigger] heap_le(x, y) || heap_le(y, x),
        forall|x: T| #[trigger] heap_le(x, x),
        forall|x: T, y: T, z: T|
            #[trigger] heap_le(x, y) && #[trigger] heap_le(y, z) ==> heap_le(x, z),
        forall|x: T, y: T| #[trigger] x.partial_cmp_spec(&y) == Some(x.cmp_spec(&y)),
        forall|x: T, y: T|
            (#[trigger] x.cmp_spec(&y) == Ordering::Greater) <==> y.cmp_spec(&x) == Ordering::Less,
        forall|x: T, y: T| #[trigger] x.cmp_spec(&y) == Ordering::Equal ==> x == y,
        T::obeys_cmp_spec(),
        T::obeys_partial_cmp_spec(),
{
    reveal(vstd::laws_cmp::obeys_partial_cmp_spec_properties);
    reveal(vstd::laws_cmp::obeys_cmp_partial_ord);
    reveal(vstd::laws_cmp::obeys_cmp_ord);
    reveal(vstd::laws_eq::obeys_concrete_eq);
    assert forall|x: T, y: T| #[trigger] heap_le(x, y) || heap_le(y, x) by {
        if x.partial_cmp_spec(&y) == Some(Ordering::Greater) {
            assert(y.partial_cmp_spec(&x) == Some(Ordering::Less));
        }
    }
    assert forall|x: T, y: T|
        (#[trigger] x.cmp_spec(&y) == Ordering::Greater) <==> y.cmp_spec(&x)
        == Ordering::Less by {
        if x.partial_cmp_spec(&y) == Some(Ordering::Greater) {
            assert(y.partial_cmp_spec(&x) == Some(Ordering::Less));
        }
        if y.partial_cmp_spec(&x) == Some(Ordering::Less) {
            assert(x.partial_cmp_spec(&y) == Some(Ordering::Greater));
        }
    }
    assert forall|x: T, y: T| #[trigger] x.cmp_spec(&y) == Ordering::Equal implies x == y by {
        assert(x.eq_spec(&y));
    }
    assert forall|x: T, y: T, z: T|
        #[trigger] heap_le(x, y) && #[trigger] heap_le(y, z) implies heap_le(x, z) by {
        if x.cmp_spec(&y) == Ordering::Equal {
            assert(x.eq_spec(&y));
            assert(x == y);
        } else {
            assert(x.partial_cmp_spec(&y) == Some(Ordering::Less));
            if y.cmp_spec(&z) == Ordering::Equal {
                assert(y.eq_spec(&z));
                assert(y == z);
            } else {
                assert(y.partial_cmp_spec(&z) == Some(Ordering::Less));
                assert(x.partial_cmp_spec(&z) == Some(Ordering::Less));
            }
        }
    }
}

/// In a heap-ordered array the first element stands at or above every
/// element.
proof fn lemma_root_min<T: Ord>(v: Seq<T>, j: int)
    requires
        cmp_lawful::<T>(),
        heap_ordered(v),
        0 <= j < v.len(),
    ensures
        heap_le(v[0], v[j]),
    decreases j,
{
    lemma_cmp_facts::<T>();
    if j > 0 {
        lemma_root_min(v, hparent(j));
    } else {
        assert(heap_le(v[0], v[0])) by {
            if v[0].cmp_spec(&v[0]) == Ordering::Greater {
                assert(heap_le(v[0], v[0]) || heap_le(v[0], v[0]));
            }
        }
    }
}

impl<T: Ord> PriorityQueue<T> {
    /// Creates an empty queue.
    pub fn new() -> (r: Self)
        ensures
            r.wf(),
            r@ == Multiset::<T>::empty(),
    {
        let r = PriorityQueue(Vec::new());
        proof {
            assert(r.0@.to_multiset() =~= Multiset::<T>::empty());
        }
        r
    }

    /// The number of queued elements.
    pub fn len(&self) -> (r: usize)
        ensures
            r == self@.len(),
    {
        self.0.len()
    }

    /// Whether the queue holds no element.
    pub fn is_empty(&self) -> (r: bool)
        ensures
            r == (self@.len() == 0),
    {
        self.0.is_empty()
    }

    /// Exchanges the elements at two positions.
    fn swap(&mut self, i1: usize, i2: usize)
        requires
            i1 < old(self).0@.len(),
            i2 < old(self).0@.len(),
        ensures
            final(self).0@ == old(self).0@.update(i1 as int, old(self).0@[i2 as int]).update(
                i2 as int,
                old(self).0@[i1 as int],
            ),
            final(self)@ == old(self)@,
    {
        let ghost target = old(self).0@.update(i1 as int, old(self).0@[i2 as int]).update(
            i2 as int,
            old(self).0@[i1 as int],
        );
        if i1 != i2 {
            let lo = if i1 < i2 {
                i1
            } else {
                i2
            };
            let hi = if i1 < i2 {
                i2
            } else {
                i1
            };
            let x = self.0.remove(lo);
            let y = self.0.remove(hi - 1);
            self.0.insert(lo, y);
            self.0.insert(hi, x);
            proof {
                assert(self.0@ =~= target);
            }
        } else {
            proof {
                assert(self.0@ =~= target);
            }
        }
        proof {
            assert(self.0@.to_multiset() =~= old(self).0@.to_multiset()) by {
                vstd::seq_lib::to_multiset_update(old(self).0@, i1 as int, old(self).0@[i2 as int]);
                vstd::seq_lib::to_multiset_update(
                    old(self).0@.update(i1 as int, old(self).0@[i2 as int]),
                    i2 as int,
                    old(self).0@[i1 as int],
                );
            }
        }
    }

    /// Restores heap order after the first element was replaced, letting the
    /// replacement sink to its place.
    #[verifier::loop_isolation(false)]
    fn sink(&mut self)
        requires
            cmp_lawful::<T>() ==> heap_except_below(old(self).0@, 0),
        ensures
            final(self).wf(),
            final(self)@ == old(self)@,
            final(self).0@.len() == old(self).0@.len(),
    {
        proof {
            if cmp_lawful::<T>() {
                lemma_cmp_facts::<T>();
            }
        }
        let mut k: usize = 1;
        let mut done: bool = false;
        while !done && k <= self.0.len() / 2
            invariant
                1 <= k,
                k <= self.0@.len() || self.0@.len() == 0,
                self@ == old(self)@,
                self.0@.len() == old(self).0@.len(),
                cmp_lawful::<T>() ==> heap_except_below(self.0@, k - 1),
                cmp_lawful::<T>() ==> hole_bridged(self.0@, k - 1),
                done ==> (cmp_lawful::<T>() ==> heap_ordered(self.0@)),
            decreases self.0@.len() - k + (if done {
                0int
            } else {
                1int
            }),
        {
            let len = self.0.len();
            let next: usize = if 2 * k == len {
                2 * k
            } else if self.0[2 * k - 1].lt(&self.0[2 * k]) {
                2 * k
            } else {
                2 * k + 1
            };
            let stop = self.0[next - 1].ge(&self.0[k - 1]);
            if stop {
                proof {
                    if cmp_lawful::<T>() {
                        let v = self.0@;
                        assert forall|j: int| 1 <= j < v.len() implies heap_le(
                            v[hparent(j)],
                            #[trigger] v[j],
                        ) by {
                            if hparent(j) == k - 1 {
                                assert(j == 2 * (k - 1) + 1 || j == 2 * (k - 1) + 2);
                                assert(heap_le(v[k - 1], v[next - 1]));
                                if j != next - 1 {
                                    assert(heap_le(v[next - 1], v[j]));
                                }
                            }
                        }
                    }
                }
                done = true;
            } else {
                proof {
                    if cmp_lawful::<T>() {
                        let v = self.0@;
                        assert(heap_le(v[next - 1], v[k - 1]));
                        if 2 * k < len {
                            assert(heap_le(v[next - 1], v[2 * k - 1]) && heap_le(
                                v[next - 1],
                                v[2 * k],
                            ));
                        }
                    }
                }
                let ghost before = self.0@;
                self.swap(k - 1, next - 1);
                proof {
                    if cmp_lawful::<T>() {
                        let v = self.0@;
                        assert forall|j: int|
                            1 <= j < v.len() && hparent(j) != next - 1 implies heap_le(
                            v[hparent(j)],
                            #[trigger] v[j],
                        ) by {
                            if hparent(j) == k - 1 {
                                assert(heap_le(before[next - 1], before[j]) || j == next - 1);
                            } else {
                                assert(v[j] == before[j] || j == k - 1 || j == next - 1);
                                assert(v[hparent(j)] == before[hparent(j)]);
                                if j == next - 1 {
                                    assert(false);
                                }
                                if j == k - 1 {
                                    assert(hparent(next - 1) == k - 1);
                                    assert(heap_le(before[hparent(k - 1)], before[next - 1]));
                                }
                            }
                        }
                        assert(hole_bridged(v, next - 1)) by {
                            assert forall|j: int|
                                1 <= j < v.len() && hparent(j) == next - 1 implies heap_le(
                                v[hparent(next - 1)],
                                #[trigger] v[j],
                            ) by {
                                assert(hparent(next - 1) == k - 1);
                                assert(v[k - 1] == before[next - 1]);
                                assert(v[j] == before[j]);
                                assert(heap_le(before[next - 1], before[j]));
                            }
                        }
                    }
                }
                k = next;
            }
        }
        proof {
            if cmp_lawful::<T>() && !done {
                let v = self.0@;
                assert forall|j: int| 1 <= j < v.len() implies heap_le(
                    v[hparent(j)],
                    #[trigger] v[j],
                ) by {
                    if hparent(j) == k - 1 {
                        assert(j == 2 * (k - 1) + 1 || j == 2 * (k - 1) + 2);
                        assert(j >= 2 * k - 1);
                        assert(2 * k <= v.len());
                    }
                }
            }
        }
    }

    /// Restores heap order after an element was appended, letting it swim to
    /// its place.
    #[verifier::loop_isolation(false)]
    fn swim(&mut self)
        requires
            cmp_lawful::<T>() ==> heap_except_at(old(self).0@, old(self).0@.len() - 1),
        ensures
            final(self).wf(),
            final(self)@ == old(self)@,
            final(self).0@.len() == old(self).0@.len(),
    {
        proof {
            if cmp_lawful::<T>() {
                lemma_cmp_facts::<T>();
            }
        }
        let mut k: usize = self.0.len();
        let mut done: bool = false;
        while !done && k / 2 >= 1
            invariant
                (self.0@.len() == 0 && k == 0) || 1 <= k <= self.0@.len(),
                self@ == old(self)@,
                self.0@.len() == old(self).0@.len(),
                cmp_lawful::<T>() ==> heap_except_at(self.0@, k - 1),
                cmp_lawful::<T>() ==> hole_bridged(self.0@, k - 1),
                done ==> (cmp_lawful::<T>() ==> heap_ordered(self.0@)),
            decreases k + (if done {
                0int
            } else {
                1int
            }),
        {
            let stop = self.0[k - 1].ge(&self.0[k / 2 - 1]);
            if stop {
                proof {
                    if cmp_lawful::<T>() {
                        let v = self.0@;
                        assert(hparent(k - 1) == k / 2 - 1);
                        assert forall|j: int| 1 <= j < v.len() implies heap_le(
                            v[hparent(j)],
                            #[trigger] v[j],
                        ) by {
                            if j == k - 1 {
                                assert(heap_le(v[k / 2 - 1], v[k - 1]));
                            }
                        }
                    }
                }
                done = true;
            } else {
                let ghost before = self.0@;
                self.swap(k - 1, k / 2 - 1);
                proof {
                    if cmp_lawful::<T>() {
                        let v = self.0@;
                        assert(hparent(k - 1) == k / 2 - 1);
                        assert(heap_le(before[k - 1], before[k / 2 - 1]));
                        assert forall|j: int|
                            1 <= j < v.len() && j != k / 2 - 1 implies heap_le(
                            v[hparent(j)],
                            #[trigger] v[j],
                        ) by {
                            if j == k - 1 {
                                assert(v[hparent(j)] == before[k - 1]);
                            } else if hparent(j) == k - 1 {
                                assert(heap_le(before[hparent(k - 1)], before[j]));
                                assert(v[hparent(j)] == before[k / 2 - 1]);
                                assert(heap_le(before[k - 1], before[k / 2 - 1]));
                                assert(heap_le(before[k / 2 - 1], before[j]) || heap_le(
                                    before[k - 1],
                                    before[j],
                                ) || true);
                                assert(heap_le(v[hparent(j)], v[j])) by {
                                    assert(v[j] == before[j]);
                                    assert(heap_le(before[hparent(k - 1)], before[j]));
                                }
                            } else if hparent(j) == k / 2 - 1 {
                                assert(v[hparent(j)] == before[k - 1]);
                                assert(v[j] == before[j]);
                                assert(heap_le(before[k / 2 - 1], before[j]));
                                assert(heap_le(before[k - 1], before[j]));
                            } else {
                                assert(v[j] == before[j] && v[hparent(j)] == before[hparent(j)]);
                            }
                        }
                        assert(hole_bridged(v, k / 2 - 1)) by {
                            if k / 2 - 1 > 0 {
                                assert forall|j: int|
                                    1 <= j < v.len() && hparent(j) == k / 2 - 1 implies heap_le(
                                    v[hparent(k / 2 - 1)],
                                    #[trigger] v[j],
                                ) by {
                                    assert(v[hparent(k / 2 - 1)] == before[hparent(k / 2 - 1)]);
                                    assert(heap_le(
                                        before[hparent(k / 2 - 1)],
                                        before[k / 2 - 1],
                                    ));
                                    if j == k - 1 {
                                        assert(v[j] == before[k / 2 - 1]);
                                    } else {
                                        assert(v[j] == before[j]);
                                        assert(heap_le(before[k / 2 - 1], before[j]));
                                    }
                                }
                            }
                        }
                    }
                }
                k = k / 2;
            }
        }
        proof {
            if cmp_lawful::<T>() && !done && k >= 1 {
                let v = self.0@;
                assert(k == 1);
                assert forall|j: int| 1 <= j < v.len() implies heap_le(
                    v[hparent(j)],
                    #[trigger] v[j],
                ) by {}
            }
        }
    }

    /// Adds an element to the queue.
    pub fn insert(&mut self, ele: T)
        requires
            old(self).wf(),
            old(self)@.len() < usize::MAX,
        ensures
            final(self).wf(),
            final(self)@ == old(self)@.insert(ele),
            final(self)@.len() == old(self)@.len() + 1,
    {
        self.0.push(ele);
        proof {
            if cmp_lawful::<T>() {
                let v = self.0@;
                assert forall|j: int|
                    1 <= j < v.len() && j != v.len() - 1 implies heap_le(
                    v[hparent(j)],
                    #[trigger] v[j],
                ) by {
                    assert(v[j] == old(self).0@[j] && v[hparent(j)] == old(self).0@[hparent(j)]);
                }
            }
        }
        self.swim();
    }

    /// Removes and returns a least element, or nothing when the queue is
    /// empty.  When the element type's comparison obeys the total order
    /// laws, the returned element compares at or below everything queued.
    pub fn pop(&mut self) -> (r: Option<T>)
        requires
            old(self).wf(),
        ensures
            final(self).wf(),
            old(self)@.len() == 0 ==> r is None && final(self)@ == old(self)@,
            old(self)@.len() > 0 ==> (match r {
                Some(x) => {
                    &&& old(self)@.count(x) > 0
                    &&& final(self)@ == old(self)@.remove(x)
                    &&& cmp_lawful::<T>() ==> (forall|y: T|
                        #[trigger] old(self)@.count(y) > 0 ==> heap_le(x, y))
                },
                None => false,
            }),
    {
        let length = self.0.len();
        if length <= 1 {
            let r = self.0.pop();
            proof {
                let ov = old(self).0@;
                if length == 1 {
                    assert(ov =~= Seq::empty().push(ov[0]));
                    assert(ov.to_multiset() =~= Multiset::empty().insert(ov[0]));
                    assert(self.0@.to_multiset() =~= Multiset::empty());
                    assert(self.0@.to_multiset() =~= ov.to_multiset().remove(ov[0]));
                    if cmp_lawful::<T>() {
                        assert forall|y: T| #[trigger] old(self)@.count(y) > 0 implies heap_le(
                            ov[0],
                            y,
                        ) by {
                            assert(ov.contains(y));
                            let jy = choose|jy: int| 0 <= jy < ov.len() && ov[jy] == y;
                            lemma_root_min(ov, jy);
                        }
                    }
                } else {
                    assert(self.0@.to_multiset() =~= old(self)@);
                }
            }
            r
        } else {
            self.swap(0, length - 1);
            let ghost swapped = self.0@;
            let r = self.0.pop();
            proof {
                let ov = old(self).0@;
                assert(self.0@ =~= swapped.take(length - 1));
                assert(swapped =~= self.0@.push(ov[0]));
                assert(swapped.to_multiset() =~= self.0@.to_multiset().insert(ov[0]));
                assert(self.0@.to_multiset() =~= old(self)@.remove(ov[0]));
                if cmp_lawful::<T>() {
                    lemma_cmp_facts::<T>();
                    assert forall|j: int|
                        1 <= j < self.0@.len() && hparent(j) != 0 implies heap_le(
                        self.0@[hparent(j)],
                        #[trigger] self.0@[j],
                    ) by {
                        assert(self.0@[j] == ov[j]);
                        assert(self.0@[hparent(j)] == ov[hparent(j)]);
                    }
                }
            }
            let ghost popped = self.0@;
            self.sink();
            proof {
                let ov = old(self).0@;
                assert(final(self)@ == popped.to_multiset());
                if cmp_lawful::<T>() {
                    assert forall|y: T| #[trigger] old(self)@.count(y) > 0 implies heap_le(
                        ov[0],
                        y,
                    ) by {
                        assert(ov.contains(y));
                        let jy = choose|jy: int| 0 <= jy < ov.len() && ov[jy] == y;
                        lemma_root_min(ov, jy);
                    }
                }
            }
            Some(r.unwrap())
        }
    }
}

impl<T: Clone> Clone for PriorityQueue<T> {
    /// Clones the backing array.
    fn clone(&self) -> (r: Self) {
        PriorityQueue(self.0.clone())
    }
}

} // verus!
