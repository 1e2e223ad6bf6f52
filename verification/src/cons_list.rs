use vstd::prelude::*;

use vstd::pervasive::cloned;
use vstd::std_specs::cmp::{PartialEqSpec, PartialEqSpecImpl};

verus! {

/// Pointwise element equality of two sequences, under the element type's own
/// equality specification.
pub open spec fn seqs_eq_spec<T: PartialEq>(a: Seq<T>, b: Seq<T>) -> bool {
    a.len() == b.len() && forall|i: int| 0 <= i < a.len() ==> a[i].eq_spec(&b[i])
}

/// A singly linked list built from cons cells, viewed as the sequence of its
/// elements with the head first.
#[derive(Debug)]
pub enum ConsList<T> {
    Cons(T, Box<ConsList<T>>),
    Nil,
}

impl<T> ConsList<T> {
    pub open spec fn as_seq(self) -> Seq<T>
        decreases self,
    {
        match self {
            ConsList::Cons(data, tail) => seq![data] + tail.as_seq(),
            ConsList::Nil => Seq::empty(),
        }
    }
}

impl<T> View for ConsList<T> {
    type V = Seq<T>;

    open spec fn view(&self) -> Seq<T> {
        self.as_seq()
    }
}

impl<T> ConsList<T> {
    pub fn new() -> (r: Self)
        ensures
            r@ == Seq::<T>::empty(),
    {
        ConsList::Nil
    }

    fn _len(&self, current: usize) -> (r: usize)
        requires
            current + self@.len() <= usize::MAX,
        ensures
            r == current + self@.len(),
        decreases self,
    {
        match self {
            ConsList::Cons(_, tail) => tail._len(current + 1),
            ConsList::Nil => current,
        }
    }

    pub fn len(&self) -> (r: usize)
        requires
            self@.len() <= usize::MAX,
        ensures
            r == self@.len(),
    {
        self._len(0)
    }

    pub fn push(self, data: T) -> (r: Self)
        ensures
            r@ == seq![data] + self@,
    {
        ConsList::Cons(data, Box::new(self))
    }

    pub fn push_back(&mut self, data: T)
        ensures
            final(self)@ == old(self)@.push(data),
    {
        self.append(ConsList::new().push(data));
        assert(final(self)@ =~= old(self)@.push(data));
    }

    fn _append(&mut self, other: Box<ConsList<T>>)
        ensures
            final(self)@ == old(self)@ + other@,
        decreases *old(self),
    {
        let mut taken = ConsList::Nil;
        core::mem::swap(self, &mut taken);
        match taken {
            ConsList::Cons(data, mut tail) => {
                (&mut *tail)._append(other);
                *self = ConsList::Cons(data, tail);
                assert(final(self)@ =~= old(self)@ + other@);
            }
            ConsList::Nil => {
                *self = *other;
                assert(final(self)@ =~= old(self)@ + other@);
            }
        }
    }

    pub fn append(&mut self, other: ConsList<T>)
        ensures
            final(self)@ == old(self)@ + other@,
    {
        self._append(Box::new(other))
    }

    fn _insert(&mut self, index: usize, other: ConsList<T>)
        requires
            index <= old(self)@.len(),
        ensures
            final(self)@ == old(self)@.subrange(0, index as int) + other@ + old(self)@.subrange(
                index as int,
                old(self)@.len() as int,
            ),
        decreases *old(self),
    {
        if index == 0 {
            let mut former = other;
            core::mem::swap(self, &mut former);
            self.append(former);
            assert(final(self)@ =~= old(self)@.subrange(0, 0) + other@ + old(self)@.subrange(
                0,
                old(self)@.len() as int,
            ));
        } else {
            let mut taken = ConsList::Nil;
            core::mem::swap(self, &mut taken);
            match taken {
                ConsList::Cons(data, mut tail) => {
                    (&mut *tail)._insert(index - 1, other);
                    *self = ConsList::Cons(data, tail);
                    assert(final(self)@ =~= old(self)@.subrange(0, index as int) + other@ + old(
                        self,
                    )@.subrange(index as int, old(self)@.len() as int));
                }
                ConsList::Nil => {
                    assert(false);
                }
            }
        }
    }

    pub fn insert(&mut self, index: usize, data: T)
        requires
            index <= old(self)@.len(),
        ensures
            final(self)@ == old(self)@.insert(index as int, data),
    {
        self._insert(index, ConsList::new().push(data));
        assert(final(self)@ =~= old(self)@.insert(index as int, data));
    }

    pub fn insert_list(&mut self, index: usize, list: ConsList<T>)
        requires
            index <= old(self)@.len(),
        ensures
            final(self)@ == old(self)@.subrange(0, index as int) + list@ + old(self)@.subrange(
                index as int,
                old(self)@.len() as int,
            ),
    {
        self._insert(index, list)
    }

    pub fn is_empty(&self) -> (r: bool)
        ensures
            r == (self@.len() == 0),
    {
        if let ConsList::Nil = self {
            return true;
        }
        false
    }

    pub fn index(&self, index: usize) -> (r: &T)
        requires
            index < self@.len(),
        ensures
            *r == self@[index as int],
        decreases self,
    {
        match self {
            ConsList::Cons(data, next) => {
                if index == 0 {
                    data
                } else {
                    next.index(index - 1)
                }
            }
            ConsList::Nil => {
                proof {
                    assert(false);
                }
                unreached()
            }
        }
    }
}

impl<T: Clone> ConsList<T> {
    /// Builds a list by pushing a clone of each slice element onto the
    /// front, so the list holds the slice's elements in reverse order.
    pub fn from_slice(slice: &[T]) -> (r: Self)
        ensures
            r@.len() == slice@.len(),
            forall|i: int|
                0 <= i < slice@.len() ==> cloned::<T>(
                    slice@[i],
                    #[trigger] r@[slice@.len() - 1 - i],
                ),
    {
        let mut result = ConsList::new();
        let mut i: usize = 0;
        while i < slice.len()
            invariant
                i <= slice@.len(),
                result@.len() == i,
                forall|j: int| 0 <= j < i ==> cloned::<T>(slice@[j], #[trigger] result@[i - 1 - j]),
            decreases slice@.len() - i,
        {
            let ghost i0 = i as int;
            let elem: &T = &slice[i];
            let c = elem.clone();
            let ghost prev = result@;
            proof {
                assert(vstd::pervasive::strictly_cloned::<T>(*elem, c));
                assert(cloned::<T>(slice@[i0], c));
            }
            result = result.push(c);
            i = i + 1;
            proof {
                assert(result@ == seq![c] + prev);
                assert forall|j: int| 0 <= j < i implies cloned::<T>(
                    slice@[j],
                    #[trigger] result@[i - 1 - j],
                ) by {
                    if j < i0 {
                        assert(result@[i - 1 - j] == prev[i0 - 1 - j]);
                        assert(cloned::<T>(slice@[j], prev[i0 - 1 - j]));
                    } else {
                        assert(j == i0);
                        assert(result@[0] == c);
                        assert(cloned::<T>(slice@[i0], c));
                    }
                }
            }
        }
        result
    }
}

impl<T: Clone> From<&[T]> for ConsList<T> {
    /// Builds the list from a slice; `from_slice` carries the contract.
    fn from(slice: &[T]) -> (r: Self) {
        ConsList::from_slice(slice)
    }
}

impl<T: Clone> vstd::std_specs::convert::FromSpecImpl<&[T]> for ConsList<T> {
    open spec fn obeys_from_spec() -> bool {
        false
    }

    open spec fn from_spec(v: &[T]) -> Self {
        ConsList::Nil
    }
}

impl<T> Default for ConsList<T> {
    /// The default list is empty.
    fn default() -> (r: Self)
        ensures
            r@ == Seq::<T>::empty(),
    {
        ConsList::Nil
    }
}

impl<T: PartialEq> PartialEqSpecImpl for ConsList<T> {
    open spec fn obeys_eq_spec() -> bool {
        T::obeys_eq_spec()
    }

    open spec fn eq_spec(&self, other: &Self) -> bool {
        seqs_eq_spec(self@, other@)
    }
}

impl<T: PartialEq> PartialEq for ConsList<T> {
    /// Structural equality, element by element.
    fn eq(&self, other: &Self) -> (r: bool)
        decreases self,
    {
        if let ConsList::Nil = self {
            if let ConsList::Nil = other {
                return true;
            }
        }
        if let ConsList::Cons(data, next) = self {
            if let ConsList::Cons(other_data, other_next) = other {
                if data == other_data {
                    let r = (&**next).eq(&**other_next);
                    proof {
                        if T::obeys_eq_spec() {
                            assert(self@ =~= seq![*data] + next@);
                            assert(other@ =~= seq![*other_data] + other_next@);
                            if r {
                                assert forall|i: int| 0 <= i < self@.len() implies self@[
                                    i].eq_spec(&other@[i]) by {
                                    if i > 0 {
                                        assert(next@[i - 1].eq_spec(&other_next@[i - 1]));
                                    }
                                }
                            } else {
                                if seqs_eq_spec(self@, other@) {
                                    assert forall|i: int|
                                        0 <= i < next@.len() implies next@[i].eq_spec(
                                        &other_next@[i],
                                    ) by {
                                        assert(self@[i + 1].eq_spec(&other@[i + 1]));
                                    }
                                }
                            }
                        }
                    }
                    return r;
                }
            }
        }
        proof {
            if T::obeys_eq_spec() && seqs_eq_spec(self@, other@) {
                if self@.len() == 0 {
                    assert(self is Nil && other is Nil);
                } else {
                    assert(self@[0].eq_spec(&other@[0]));
                    assert(false);
                }
            }
        }
        false
    }

    fn ne(&self, other: &Self) -> (r: bool) {
        !self.eq(other)
    }
}

impl<T: PartialEq> ConsList<T> {
    fn eq_suffix(&self, other: &[T], from: usize) -> (r: bool)
        requires
            from <= other@.len(),
        ensures
            T::obeys_eq_spec() ==> r == seqs_eq_spec(self@, other@.skip(from as int)),
        decreases self,
    {
        let sfx = Ghost(other@.skip(from as int));
        match self {
            ConsList::Nil => {
                let r = other.len() == from;
                proof {
                    if T::obeys_eq_spec() && !r {
                        assert(sfx@.len() > 0);
                    }
                }
                r
            },
            ConsList::Cons(data, next) => {
                if from < other.len() {
                    let oe = &other[from];
                    if data == oe {
                        let r = next.eq_suffix(other, from + 1);
                        proof {
                            if T::obeys_eq_spec() {
                                assert(self@ =~= seq![*data] + next@);
                                assert(sfx@.drop_first() =~= other@.skip(from as int + 1));
                                if r {
                                    assert forall|i: int| 0 <= i < self@.len() implies self@[
                                        i].eq_spec(&sfx@[i]) by {
                                        if i > 0 {
                                            assert(next@[i - 1].eq_spec(
                                                &other@.skip(from as int + 1)[i - 1],
                                            ));
                                        }
                                    }
                                } else {
                                    if seqs_eq_spec(self@, sfx@) {
                                        assert forall|i: int|
                                            0 <= i < next@.len() implies next@[i].eq_spec(
                                            &other@.skip(from as int + 1)[i],
                                        ) by {
                                            assert(self@[i + 1].eq_spec(&sfx@[i + 1]));
                                        }
                                    }
                                }
                            }
                        }
                        r
                    } else {
                        proof {
                            if T::obeys_eq_spec() && seqs_eq_spec(self@, sfx@) {
                                assert(self@[0].eq_spec(&sfx@[0]));
                            }
                        }
                        false
                    }
                } else {
                    proof {
                        if T::obeys_eq_spec() && seqs_eq_spec(self@, sfx@) {
                            assert(self@.len() > 0 && sfx@.len() == 0);
                        }
                    }
                    false
                }
            },
        }
    }
}

impl<T: PartialEq> PartialEqSpecImpl<[T]> for ConsList<T> {
    open spec fn obeys_eq_spec() -> bool {
        T::obeys_eq_spec()
    }

    open spec fn eq_spec(&self, other: &[T]) -> bool {
        seqs_eq_spec(self@, other@)
    }
}

impl<T: PartialEq> PartialEq<[T]> for ConsList<T> {
    /// Equality with a slice, element by element.
    fn eq(&self, other: &[T]) -> (r: bool) {
        let r = self.eq_suffix(other, 0);
        proof {
            assert(other@.skip(0) =~= other@);
        }
        r
    }

    fn ne(&self, other: &[T]) -> (r: bool) {
        !<Self as PartialEq<[T]>>::eq(self, other)
    }
}

} // verus!
