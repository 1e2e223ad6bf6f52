use vstd::prelude::*;

use crate::Pair;
use core::cmp::Ordering;
use vstd::laws_cmp::obeys_cmp;
use vstd::laws_eq::obeys_concrete_eq;
use vstd::std_specs::cmp::{OrdSpec, PartialEqSpec, PartialOrdSpec};

verus! {

/// Whether `K`'s comparison obeys the total-order laws and its equality is
/// plain structural equality: under this condition the search order is
/// provable.
pub open spec fn key_lawful<K: Ord>() -> bool {
    obeys_cmp::<K>() && obeys_concrete_eq::<K>()
}

/// Strict key order, as the key type's own comparison defines it.
pub open spec fn key_lt<K: Ord>(a: K, b: K) -> bool {
    a.cmp_spec(&b) == Ordering::Less
}

/// Total order facts for a lawful key type, unfolded from the opaque law
/// predicates.
proof fn lemma_key_facts<K: Ord>()
    requires
        key_lawful::<K>(),
    ensures
        forall|x: K, y: K| #[trigger] x.cmp_spec(&y) == Ordering::Equal ==> x == y,
        forall|x: K, y: K|
            (#[trigger] x.cmp_spec(&y) == Ordering::Greater) <==> key_lt(y, x),
        forall|x: K| !#[trigger] key_lt(x, x),
        forall|x: K, y: K, z: K|
            #[trigger] key_lt(x, y) && #[trigger] key_lt(y, z) ==> key_lt(x, z),
        K::obeys_cmp_spec(),
{
    reveal(vstd::laws_cmp::obeys_partial_cmp_spec_properties);
    reveal(vstd::laws_cmp::obeys_cmp_partial_ord);
    reveal(vstd::laws_cmp::obeys_cmp_ord);
    reveal(vstd::laws_eq::obeys_concrete_eq);
    assert forall|x: K, y: K| #[trigger] x.cmp_spec(&y) == Ordering::Equal implies x == y by {
        assert(x.eq_spec(&y));
    }
    assert forall|x: K, y: K|
        (#[trigger] x.cmp_spec(&y) == Ordering::Greater) <==> key_lt(y, x) by {
        if x.partial_cmp_spec(&y) == Some(Ordering::Greater) {
            assert(y.partial_cmp_spec(&x) == Some(Ordering::Less));
        }
        if y.partial_cmp_spec(&x) == Some(Ordering::Less) {
            assert(x.partial_cmp_spec(&y) == Some(Ordering::Greater));
        }
    }
    assert forall|x: K| !#[trigger] key_lt(x, x) by {
        if x.partial_cmp_spec(&x) == Some(Ordering::Less) {
            assert(x.partial_cmp_spec(&x) == Some(Ordering::Greater));
        }
    }
    assert forall|x: K, y: K, z: K|
        #[trigger] key_lt(x, y) && #[trigger] key_lt(y, z) implies key_lt(x, z) by {
        assert(x.partial_cmp_spec(&y) == Some(Ordering::Less));
        assert(y.partial_cmp_spec(&z) == Some(Ordering::Less));
        assert(x.partial_cmp_spec(&z) == Some(Ordering::Less));
    }
}

/// An unbalanced binary search tree over keyed records, viewed as the map
/// from keys to values.
pub struct BinarySearchTree<T: Pair> {
    root: Option<Box<Node<T>>>,
}

struct Node<T: Pair> {
    data: T,
    left: Option<Box<Node<T>>>,
    right: Option<Box<Node<T>>>,
}

impl<T: Pair> Node<T> {
    spec fn optional_as_map(node_opt: Option<Box<Node<T>>>) -> Map<T::Key, T::Value>
        decreases node_opt,
    {
        match node_opt {
            None => Map::empty(),
            Some(node) => node.as_map(),
        }
    }

    spec fn as_map(self) -> Map<T::Key, T::Value>
        decreases self,
    {
        Node::<T>::optional_as_map(self.left).union_prefer_right(
            Node::<T>::optional_as_map(self.right),
        ).insert(self.data.spec_key(), self.data.spec_value())
    }

    spec fn well_formed(self) -> bool
        decreases self,
    {
        &&& (forall|e: T::Key|
            #[trigger] Node::<T>::optional_as_map(self.left).dom().contains(e) ==> key_lt(
                e,
                self.data.spec_key(),
            ))
        &&& (forall|e: T::Key|
            #[trigger] Node::<T>::optional_as_map(self.right).dom().contains(e) ==> key_lt(
                self.data.spec_key(),
                e,
            ))
        &&& (match self.left {
            Some(left_node) => left_node.well_formed(),
            None => true,
        })
        &&& (match self.right {
            Some(right_node) => right_node.well_formed(),
            None => true,
        })
    }
}

impl<T: Pair> BinarySearchTree<T> {
    /// The search-order invariant, meaningful whenever the key type is
    /// lawful.
    pub closed spec fn wf(&self) -> bool {
        key_lawful::<T::Key>() ==> match self.root {
            Some(node) => node.well_formed(),
            None => true,
        }
    }
}

impl<T: Pair> View for BinarySearchTree<T> {
    type V = Map<T::Key, T::Value>;

    /// The map of stored records.
    closed spec fn view(&self) -> Map<T::Key, T::Value> {
        Node::<T>::optional_as_map(self.root)
    }
}

impl<T: Pair> BinarySearchTree<T> {
    /// Creates an empty tree.
    pub fn new() -> (r: Self)
        ensures
            r.wf(),
            r@ == Map::<T::Key, T::Value>::empty(),
    {
        BinarySearchTree { root: None }
    }

    /// Inserts a record: a record with an equal key is replaced, every other
    /// record is kept.
    pub fn insert(&mut self, data: T)
        requires
            old(self).wf(),
        ensures
            final(self).wf(),
            key_lawful::<T::Key>() ==> final(self)@ == old(self)@.insert(
                data.spec_key(),
                data.spec_value(),
            ),
    {
        match self.root {
            Some(ref mut node) => node.insert(data),
            None => self.root = Some(Node::boxed(data)),
        }
        proof {
            if key_lawful::<T::Key>() {
                assert(final(self)@ =~= old(self)@.insert(data.spec_key(), data.spec_value()));
            }
        }
    }

    /// Looks a key up and returns the value stored under it, if any.
    pub fn find(&self, key: &T::Key) -> (r: Option<&T::Value>)
        requires
            self.wf(),
        ensures
            key_lawful::<T::Key>() ==> match r {
                Some(v) => self@.contains_key(*key) && *v == self@[*key],
                None => !self@.contains_key(*key),
            },
    {
        match self.root {
            Some(ref node) => node.find(key),
            None => None,
        }
    }
}

impl<T: Pair> Node<T> {
    fn new(data: T) -> (r: Self)
        ensures
            r.data == data,
            r.left is None,
            r.right is None,
    {
        Node { data, left: None, right: None }
    }

    fn boxed(data: T) -> (r: Box<Self>)
        ensures
            r.as_map() == Map::<T::Key, T::Value>::empty().insert(
                data.spec_key(),
                data.spec_value(),
            ),
            key_lawful::<T::Key>() ==> r.well_formed(),
    {
        let b = Box::new(Node::new(data));
        proof {
            assert(b.as_map() =~= Map::<T::Key, T::Value>::empty().insert(
                data.spec_key(),
                data.spec_value(),
            ));
        }
        b
    }

    fn insert(&mut self, data: T)
        requires
            key_lawful::<T::Key>() ==> old(self).well_formed(),
        ensures
            key_lawful::<T::Key>() ==> final(self).well_formed() && final(self).as_map() == old(
                self,
            ).as_map().insert(data.spec_key(), data.spec_value()),
        decreases *old(self),
    {
        proof {
            if key_lawful::<T::Key>() {
                lemma_key_facts::<T::Key>();
            }
        }
        match self.data.key().cmp(data.key()) {
            Ordering::Equal => {
                proof {
                    if key_lawful::<T::Key>() {
                        assert(self.data.spec_key() == data.spec_key());
                        assert(!Node::<T>::optional_as_map(self.left).dom().contains(
                            data.spec_key(),
                        ));
                        assert(!Node::<T>::optional_as_map(self.right).dom().contains(
                            data.spec_key(),
                        ));
                    }
                }
                self.data = data;
                proof {
                    if key_lawful::<T::Key>() {
                        assert(self.as_map() =~= old(self).as_map().insert(
                            data.spec_key(),
                            data.spec_value(),
                        ));
                        assert(self.well_formed()) by {
                            assert(self.data.spec_key() == old(self).data.spec_key());
                        }
                    }
                }
            },
            Ordering::Greater => {
                // the new key is smaller: it belongs to the left subtree
                let taken = self.left.take();
                let mut boxed: Box<Node<T>>;
                match taken {
                    Some(b) => {
                        boxed = b;
                        (&mut *boxed).insert(data);
                    },
                    None => {
                        boxed = Node::boxed(data);
                    },
                }
                self.left = Some(boxed);
                proof {
                    if key_lawful::<T::Key>() {
                        assert(key_lt(data.spec_key(), self.data.spec_key()));
                        assert(!Node::<T>::optional_as_map(old(self).right).dom().contains(
                            data.spec_key(),
                        ));
                        assert(Node::<T>::optional_as_map(self.left) =~= Node::<T>::optional_as_map(
                            old(self).left,
                        ).insert(data.spec_key(), data.spec_value()));
                        assert(self.well_formed()) by {
                            assert forall|e: T::Key|
                                #[trigger] Node::<T>::optional_as_map(self.left).dom().contains(
                                    e,
                                ) implies key_lt(e, self.data.spec_key()) by {
                                if e != data.spec_key() {
                                    assert(Node::<T>::optional_as_map(
                                        old(self).left,
                                    ).dom().contains(e));
                                }
                            }
                        }
                        assert(self.as_map() =~= old(self).as_map().insert(
                            data.spec_key(),
                            data.spec_value(),
                        ));
                    }
                }
            },
            Ordering::Less => {
                // the new key is larger: it belongs to the right subtree
                let taken = self.right.take();
                let mut boxed: Box<Node<T>>;
                match taken {
                    Some(b) => {
                        boxed = b;
                        (&mut *boxed).insert(data);
                    },
                    None => {
                        boxed = Node::boxed(data);
                    },
                }
                self.right = Some(boxed);
                proof {
                    if key_lawful::<T::Key>() {
                        assert(key_lt(self.data.spec_key(), data.spec_key()));
                        assert(!Node::<T>::optional_as_map(old(self).left).dom().contains(
                            data.spec_key(),
                        ));
                        assert(Node::<T>::optional_as_map(self.right)
                            =~= Node::<T>::optional_as_map(old(self).right).insert(
                            data.spec_key(),
                            data.spec_value(),
                        ));
                        assert(self.well_formed()) by {
                            assert forall|e: T::Key|
                                #[trigger] Node::<T>::optional_as_map(self.right).dom().contains(
                                    e,
                                ) implies key_lt(self.data.spec_key(), e) by {
                                if e != data.spec_key() {
                                    assert(Node::<T>::optional_as_map(
                                        old(self).right,
                                    ).dom().contains(e));
                                }
                            }
                        }
                        assert(self.as_map() =~= old(self).as_map().insert(
                            data.spec_key(),
                            data.spec_value(),
                        ));
                    }
                }
            },
        }
    }

    fn find(&self, key: &T::Key) -> (r: Option<&T::Value>)
        requires
            key_lawful::<T::Key>() ==> self.well_formed(),
        ensures
            key_lawful::<T::Key>() ==> match r {
                Some(v) => self.as_map().dom().contains(*key) && *v == self.as_map()[*key],
                None => !self.as_map().dom().contains(*key),
            },
        decreases self,
    {
        proof {
            if key_lawful::<T::Key>() {
                lemma_key_facts::<T::Key>();
            }
        }
        match self.data.key().cmp(key) {
            Ordering::Equal => {
                proof {
                    if key_lawful::<T::Key>() {
                        assert(self.data.spec_key() == *key);
                    }
                }
                Some(self.data.value())
            },
            Ordering::Greater => {
                proof {
                    if key_lawful::<T::Key>() {
                        assert(key_lt(*key, self.data.spec_key()));
                        assert(!Node::<T>::optional_as_map(self.right).dom().contains(*key));
                    }
                }
                match self.left {
                    Some(ref node) => node.find(key),
                    None => None,
                }
            },
            Ordering::Less => {
                proof {
                    if key_lawful::<T::Key>() {
                        assert(key_lt(self.data.spec_key(), *key));
                        assert(!Node::<T>::optional_as_map(self.left).dom().contains(*key));
                    }
                }
                match self.right {
                    Some(ref node) => node.find(key),
                    None => None,
                }
            },
        }
    }
}

} // verus!
