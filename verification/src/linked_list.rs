use vstd::prelude::*;

use crate::cons_list::seqs_eq_spec;
use vstd::pervasive::cloned;
use vstd::std_specs::cmp::{PartialEqSpec, PartialEqSpecImpl};

verus! {

/// A singly linked list with an owned head node, viewed as the sequence of
/// its elements with the front first.
#[derive(Debug)]
pub struct LinkedList<T> {
    head: Box<Node<T>>,
}

#[derive(Debug)]
enum Node<T> {
    Cons(T, Box<Node<T>>),
    Nil,
}

impl<T> Node<T> {
    spec fn as_seq(self) -> Seq<T>
        decreases self,
    {
        match self {
            Node::Cons(data, tail) => seq![data] + tail.as_seq(),
            Node::Nil => Seq::empty(),
        }
    }

    fn len_from(&self, len: usize) -> (r: usize)
        requires
            len + self.as_seq().len() <= usize::MAX,
        ensures
            r == len + self.as_seq().len(),
        decreases self,
    {
        match self {
            Node::Nil => len,
            Node::Cons(_, next) => next.len_from(len + 1),
        }
    }

    fn index_value(&self, index: usize) -> (r: &T)
        requires
            index < self.as_seq().len(),
        ensures
            *r == self.as_seq()[index as int],
        decreases self,
    {
        match self {
            Node::Cons(value, next) => {
                if index == 0 {
                    value
                } else {
                    next.index_value(index - 1)
                }
            },
            Node::Nil => {
                proof {
                    assert(false);
                }
                unreached()
            },
        }
    }

    fn set_value(&mut self, index: usize, value: T)
        requires
            index < old(self).as_seq().len(),
        ensures
            final(self).as_seq() == old(self).as_seq().update(index as int, value),
        decreases *old(self),
    {
        let mut taken = Node::Nil;
        core::mem::swap(self, &mut taken);
        match taken {
            Node::Cons(data, mut next) => {
                if index == 0 {
                    *self = Node::Cons(value, next);
                    assert(final(self).as_seq() =~= old(self).as_seq().update(
                        index as int,
                        value,
                    ));
                } else {
                    (&mut *next).set_value(index - 1, value);
                    *self = Node::Cons(data, next);
                    assert(final(self).as_seq() =~= old(self).as_seq().update(
                        index as int,
                        value,
                    ));
                }
            },
            Node::Nil => {
                proof {
                    assert(false);
                }
            },
        }
    }

    fn append_node(&mut self, other: Node<T>)
        ensures
            final(self).as_seq() == old(self).as_seq() + other.as_seq(),
        decreases *old(self),
    {
        let mut taken = Node::Nil;
        core::mem::swap(self, &mut taken);
        match taken {
            Node::Cons(data, mut next) => {
                (&mut *next).append_node(other);
                *self = Node::Cons(data, next);
                assert(final(self).as_seq() =~= old(self).as_seq() + other.as_seq());
            },
            Node::Nil => {
                *self = other;
                assert(final(self).as_seq() =~= old(self).as_seq() + other.as_seq());
            },
        }
    }

    fn insert_at(&mut self, index: usize, other: Node<T>)
        requires
            index <= old(self).as_seq().len(),
        ensures
            final(self).as_seq() == old(self).as_seq().subrange(0, index as int)
                + other.as_seq() + old(self).as_seq().subrange(
                index as int,
                old(self).as_seq().len() as int,
            ),
        decreases *old(self),
    {
        if index == 0 {
            let mut former = other;
            core::mem::swap(self, &mut former);
            self.append_node(former);
            assert(final(self).as_seq() =~= old(self).as_seq().subrange(0, 0) + other.as_seq()
                + old(self).as_seq().subrange(0, old(self).as_seq().len() as int));
        } else {
            let mut taken = Node::Nil;
            core::mem::swap(self, &mut taken);
            match taken {
                Node::Cons(data, mut next) => {
                    (&mut *next).insert_at(index - 1, other);
                    *self = Node::Cons(data, next);
                    assert(final(self).as_seq() =~= old(self).as_seq().subrange(0, index as int)
                        + other.as_seq() + old(self).as_seq().subrange(
                        index as int,
                        old(self).as_seq().len() as int,
                    ));
                },
                Node::Nil => {
                    proof {
                        assert(false);
                    }
                },
            }
        }
    }
}

impl<T> View for LinkedList<T> {
    type V = Seq<T>;

    closed spec fn view(&self) -> Seq<T> {
        self.head.as_seq()
    }
}

impl<T> LinkedList<T> {
    pub fn new() -> (r: Self)
        ensures
            r@ == Seq::<T>::empty(),
    {
        LinkedList { head: Box::new(Node::Nil) }
    }

    pub fn len(&self) -> (r: usize)
        requires
            self@.len() <= usize::MAX,
        ensures
            r == self@.len(),
    {
        self.head.len_from(0)
    }

    pub fn push_front(&mut self, data: T)
        ensures
            final(self)@ == seq![data] + old(self)@,
    {
        self.insert(0, data);
        assert(final(self)@ =~= seq![data] + old(self)@);
    }

    pub fn push_back(&mut self, data: T)
        ensures
            final(self)@ == old(self)@.push(data),
    {
        let ghost dg = data;
        let single = Node::Cons(data, Box::new(Node::Nil));
        proof {
            assert(single is Cons);
            assert(single->Cons_0 == dg);
            assert(single->Cons_1.as_seq() =~= Seq::<T>::empty());
            assert(single.as_seq() =~= seq![dg]);
        }
        self.head.append_node(single);
        assert(final(self)@ =~= old(self)@.push(dg));
    }

    /// Splices the other list in front: its elements come first, the
    /// receiver's elements follow.
    pub fn append(&mut self, other: LinkedList<T>)
        ensures
            final(self)@ == other@ + old(self)@,
    {
        let mut o = other;
        core::mem::swap(&mut self.head, &mut o.head);
        self.head.append_node(*o.head)
    }

    pub fn insert(&mut self, index: usize, data: T)
        requires
            index <= old(self)@.len(),
        ensures
            final(self)@ == old(self)@.insert(index as int, data),
    {
        let ghost dg = data;
        let new_node = Node::Cons(data, Box::new(Node::Nil));
        proof {
            assert(new_node is Cons);
            assert(new_node->Cons_0 == dg);
            assert(new_node->Cons_1.as_seq() =~= Seq::<T>::empty());
            assert(new_node.as_seq() =~= seq![dg]);
        }
        self.head.insert_at(index, new_node);
        assert(final(self)@ =~= old(self)@.insert(index as int, dg));
    }

    pub fn insert_list(&mut self, index: usize, list: LinkedList<T>)
        requires
            index <= old(self)@.len(),
        ensures
            final(self)@ == old(self)@.subrange(0, index as int) + list@ + old(self)@.subrange(
                index as int,
                old(self)@.len() as int,
            ),
    {
        self.head.insert_at(index, *list.head)
    }

    pub fn is_empty(&self) -> (r: bool)
        ensures
            r == (self@.len() == 0),
    {
        if let Node::Nil = *self.head {
            return true;
        }
        false
    }

    /// The element at a position, front first.
    pub fn index(&self, index: usize) -> (r: &T)
        requires
            index < self@.len(),
        ensures
            *r == self@[index as int],
    {
        self.head.index_value(index)
    }

    /// Replaces the element at a position.
    pub fn set(&mut self, index: usize, value: T)
        requires
            index < old(self)@.len(),
        ensures
            final(self)@ == old(self)@.update(index as int, value),
    {
        self.head.set_value(index, value)
    }
}

impl<T: Clone> LinkedList<T> {
    /// Builds a list by pushing a clone of each slice element onto the
    /// front, so the list holds the slice's elements in reverse order.
    pub fn from_slice(slice: &[T]) -> (r: Self)
        ensures
            r@.len() == slice@.len(),
            forall|i: int|
                0 <= i < slice@.len() ==> cloned::<T>(
                    slice@[i],
                    #[trigger] r@[slice@.len() - 1 - i],
                ),
    {
        let mut result = LinkedList::new();
        let mut i: usize = 0;
        while i < slice.len()
            invariant
                i <= slice@.len(),
                result@.len() == i,
                forall|j: int| 0 <= j < i ==> cloned::<T>(slice@[j], #[trigger] result@[i - 1 - j]),
            decreases slice@.len() - i,
        {
            let ghost i0 = i as int;
            let elem: &T = &slice[i];
            let c = elem.clone();
            let ghost prev = result@;
            proof {
                assert(vstd::pervasive::strictly_cloned::<T>(*elem, c));
                assert(cloned::<T>(slice@[i0], c));
            }
            result.push_front(c);
            i = i + 1;
            proof {
                assert(result@ == seq![c] + prev);
                assert forall|j: int| 0 <= j < i implies cloned::<T>(
                    slice@[j],
                    #[trigger] result@[i - 1 - j],
                ) by {
                    if j < i0 {
                        assert(result@[i - 1 - j] == prev[i0 - 1 - j]);
                        assert(cloned::<T>(slice@[j], prev[i0 - 1 - j]));
                    } else {
                        assert(j == i0);
                        assert(result@[0] == c);
                        assert(cloned::<T>(slice@[i0], c));
                    }
                }
            }
        }
        result
    }
}

impl<T: Clone> From<&[T]> for LinkedList<T> {
    /// Builds the list from a slice; `from_slice` carries the contract.
    fn from(slice: &[T]) -> (r: Self) {
        LinkedList::from_slice(slice)
    }
}

impl<T: Clone> vstd::std_specs::convert::FromSpecImpl<&[T]> for LinkedList<T> {
    open spec fn obeys_from_spec() -> bool {
        false
    }

    open spec fn from_spec(v: &[T]) -> Self {
        vstd::pervasive::arbitrary()
    }
}

impl<T: PartialEq> Node<T> {
    fn eq_node(&self, other: &Self) -> (r: bool)
        ensures
            T::obeys_eq_spec() ==> r == seqs_eq_spec(self.as_seq(), other.as_seq()),
        decreases self,
    {
        if let Node::Nil = self {
            if let Node::Nil = other {
                return true;
            }
        }
        if let Node::Cons(data, next) = self {
            if let Node::Cons(other_data, other_next) = other {
                if data == other_data {
                    let r = (&**next).eq_node(&**other_next);
                    proof {
                        if T::obeys_eq_spec() {
                            let a = self.as_seq();
                            let b = other.as_seq();
                            assert(a =~= seq![*data] + next.as_seq());
                            assert(b =~= seq![*other_data] + other_next.as_seq());
                            if r {
                                assert forall|i: int| 0 <= i < a.len() implies a[i].eq_spec(
                                    &b[i],
                                ) by {
                                    if i > 0 {
                                        assert(next.as_seq()[i - 1].eq_spec(
                                            &other_next.as_seq()[i - 1],
                                        ));
                                    }
                                }
                            } else {
                                if seqs_eq_spec(a, b) {
                                    assert forall|i: int|
                                        0 <= i < next.as_seq().len() implies next.as_seq()[
                                        i].eq_spec(&other_next.as_seq()[i]) by {
                                        assert(a[i + 1].eq_spec(&b[i + 1]));
                                    }
                                }
                            }
                        }
                    }
                    return r;
                }
            }
        }
        proof {
            if T::obeys_eq_spec() && seqs_eq_spec(self.as_seq(), other.as_seq()) {
                if self.as_seq().len() == 0 {
                    assert(self is Nil && other is Nil);
                } else {
                    assert(self.as_seq()[0].eq_spec(&other.as_seq()[0]));
                    assert(false);
                }
            }
        }
        false
    }

    fn eq_suffix(&self, other: &[T], from: usize) -> (r: bool)
        requires
            from <= other@.len(),
        ensures
            T::obeys_eq_spec() ==> r == seqs_eq_spec(self.as_seq(), other@.skip(from as int)),
        decreases self,
    {
        let sfx = Ghost(other@.skip(from as int));
        match self {
            Node::Nil => {
                let r = other.len() == from;
                proof {
                    if T::obeys_eq_spec() && !r {
                        assert(sfx@.len() > 0);
                    }
                }
                r
            },
            Node::Cons(data, next) => {
                if from < other.len() {
                    let oe = &other[from];
                    if data == oe {
                        let r = next.eq_suffix(other, from + 1);
                        proof {
                            if T::obeys_eq_spec() {
                                let a = self.as_seq();
                                assert(a =~= seq![*data] + next.as_seq());
                                assert(sfx@.drop_first() =~= other@.skip(from as int + 1));
                                if r {
                                    assert forall|i: int| 0 <= i < a.len() implies a[i].eq_spec(
                                        &sfx@[i],
                                    ) by {
                                        if i > 0 {
                                            assert(next.as_seq()[i - 1].eq_spec(
                                                &other@.skip(from as int + 1)[i - 1],
                                            ));
                                        }
                                    }
                                } else {
                                    if seqs_eq_spec(a, sfx@) {
                                        assert forall|i: int|
                                            0 <= i < next.as_seq().len() implies next.as_seq()[
                                        i].eq_spec(&other@.skip(from as int + 1)[i]) by {
                                            assert(a[i + 1].eq_spec(&sfx@[i + 1]));
                                        }
                                    }
                                }
                            }
                        }
                        r
                    } else {
                        proof {
                            if T::obeys_eq_spec() && seqs_eq_spec(self.as_seq(), sfx@) {
                                assert(self.as_seq()[0].eq_spec(&sfx@[0]));
                            }
                        }
                        false
                    }
                } else {
                    proof {
                        if T::obeys_eq_spec() && seqs_eq_spec(self.as_seq(), sfx@) {
                            assert(self.as_seq().len() > 0 && sfx@.len() == 0);
                        }
                    }
                    false
                }
            },
        }
    }
}

impl<T: PartialEq> PartialEqSpecImpl for Node<T> {
    closed spec fn obeys_eq_spec() -> bool {
        T::obeys_eq_spec()
    }

    closed spec fn eq_spec(&self, other: &Self) -> bool {
        seqs_eq_spec(self.as_seq(), other.as_seq())
    }
}

impl<T: PartialEq> PartialEq for Node<T> {
    fn eq(&self, other: &Self) -> (r: bool) {
        self.eq_node(other)
    }

    fn ne(&self, other: &Self) -> (r: bool) {
        !self.eq_node(other)
    }
}

impl<T: PartialEq> PartialEqSpecImpl for LinkedList<T> {
    open spec fn obeys_eq_spec() -> bool {
        T::obeys_eq_spec()
    }

    open spec fn eq_spec(&self, other: &Self) -> bool {
        seqs_eq_spec(self@, other@)
    }
}

impl<T: PartialEq> PartialEq for LinkedList<T> {
    /// Structural equality, element by element.
    fn eq(&self, other: &Self) -> (r: bool) {
        self.head.eq_node(&other.head)
    }

    fn ne(&self, other: &Self) -> (r: bool) {
        !self.head.eq_node(&other.head)
    }
}

impl<T: PartialEq> PartialEqSpecImpl<[T]> for LinkedList<T> {
    open spec fn obeys_eq_spec() -> bool {
        T::obeys_eq_spec()
    }

    open spec fn eq_spec(&self, other: &[T]) -> bool {
        seqs_eq_spec(self@, other@)
    }
}

impl<T: PartialEq> PartialEq<[T]> for LinkedList<T> {
    /// Equality with a slice, element by element.
    fn eq(&self, other: &[T]) -> (r: bool) {
        let r = self.head.eq_suffix(other, 0);
        proof {
            assert(other@.skip(0) =~= other@);
        }
        r
    }

    fn ne(&self, other: &[T]) -> (r: bool) {
        let r = self.head.eq_suffix(other, 0);
        proof {
            assert(other@.skip(0) =~= other@);
        }
        !r
    }
}

} // verus!
