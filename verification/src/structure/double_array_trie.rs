use vstd::prelude::*;

verus! {

/// The two parallel integer arrays that back a double-array trie, plus the
/// low-water mark from which the free-slot search starts.
///
/// `base[s]` is the offset of state `s`: the candidate child of `s` under a
/// byte label `l` sits at index `base[s] + l`.  `check[i]` records ownership
/// of index `i`: `0` means the slot is unused, and `p + 1` means the slot is
/// the child of state `p` (the shift by one keeps the root, state `0`, from
/// colliding with the "unused" sentinel).
pub struct ArrayStore {
    base: Vec<usize>,
    check: Vec<usize>,
    first_free: usize,
}

impl ArrayStore {
    spec fn wf(&self) -> bool {
        self.base@.len() == self.check@.len()
    }

    spec fn sn(&self) -> int {
        self.check@.len() as int
    }

    fn len(&self) -> (r: usize)
        ensures
            r == self.sn(),
    {
        self.check.len()
    }

    fn read_base(&self, i: usize) -> (r: usize)
        requires
            self.wf(),
            i < self.sn(),
        ensures
            r == self.base@[i as int],
    {
        self.base[i]
    }

    fn read_check(&self, i: usize) -> (r: usize)
        requires
            self.wf(),
            i < self.sn(),
        ensures
            r == self.check@[i as int],
    {
        self.check[i]
    }

    fn write_base(&mut self, i: usize, v: usize)
        requires
            old(self).wf(),
            i < old(self).sn(),
        ensures
            final(self).wf(),
            final(self).base@ == old(self).base@.update(i as int, v),
            final(self).check@ == old(self).check@,
            final(self).first_free == old(self).first_free,
    {
        let _former = vec_set(&mut self.base, i, v);
    }

    fn write_check(&mut self, i: usize, v: usize)
        requires
            old(self).wf(),
            i < old(self).sn(),
        ensures
            final(self).wf(),
            final(self).check@ == old(self).check@.update(i as int, v),
            final(self).base@ == old(self).base@,
            final(self).first_free == old(self).first_free,
    {
        let _former = vec_set(&mut self.check, i, v);
    }

    /// Grows both arrays until index `i` is valid, filling new cells with the
    /// "unused" sentinel `0`.  Existing cells are never reordered or changed.
    fn ensure_capacity(&mut self, i: usize)
        requires
            old(self).wf(),
            i < usize::MAX,
        ensures
            final(self).wf(),
            final(self).sn() == if old(self).sn() >= i + 1 {
                old(self).sn()
            } else {
                i + 1
            },
            forall|j: int| 0 <= j < old(self).sn() ==> final(self).base@[j] == old(self).base@[j],
            forall|j: int| 0 <= j < old(self).sn() ==> final(self).check@[j] == old(self).check@[j],
            forall|j: int|
                old(self).sn() <= j < final(self).sn() ==> final(self).base@[j] == 0
                    && final(self).check@[j] == 0,
            final(self).first_free == old(self).first_free,
    {
        while self.check.len() < i + 1
            invariant
                self.wf(),
                i < usize::MAX,
                self.sn() >= old(self).sn(),
                self.sn() <= if old(self).sn() >= i + 1 {
                    old(self).sn()
                } else {
                    i as int + 1
                },
                forall|j: int| 0 <= j < old(self).sn() ==> self.base@[j] == old(self).base@[j],
                forall|j: int| 0 <= j < old(self).sn() ==> self.check@[j] == old(self).check@[j],
                forall|j: int|
                    old(self).sn() <= j < self.sn() ==> self.base@[j] == 0 && self.check@[j] == 0,
                self.first_free == old(self).first_free,
            decreases i + 1 - self.check.len(),
        {
            self.base.push(0);
            self.check.push(0);
        }
    }
}

/// Replaces the element of `v` at index `i` and hands the former element back.
fn vec_set<A>(v: &mut Vec<A>, i: usize, x: A) -> (former: A)
    requires
        i < old(v)@.len(),
    ensures
        final(v)@ == old(v)@.update(i as int, x),
        former == old(v)@[i as int],
{
    v.push(x);
    let former = v.swap_remove(i);
    proof {
        assert(v@ =~= old(v)@.update(i as int, x));
    }
    former
}

/// Whether, in the arrays `bs`/`cs`, state `p` has a transition under byte
/// label `l`: the candidate index is in range and owned by `p`.
spec fn is_child_arr(bs: Seq<usize>, cs: Seq<usize>, p: int, l: u8) -> bool {
    &&& 0 <= p < cs.len()
    &&& bs[p] + l < cs.len()
    &&& cs[bs[p] + l as int] == p + 1
}

/// The state reached by walking the bytes of `k` from the root through the
/// arrays `bs`/`cs`, if every byte has a transition owned by the state it
/// leaves.
spec fn sta_arr(bs: Seq<usize>, cs: Seq<usize>, k: Seq<u8>) -> Option<int>
    decreases k.len(),
{
    if k.len() == 0 {
        Some(0int)
    } else {
        match sta_arr(bs, cs, k.drop_last()) {
            None => None,
            Some(p) => {
                if is_child_arr(bs, cs, p, k.last()) {
                    Some(bs[p] + k.last() as int)
                } else {
                    None
                }
            },
        }
    }
}

/// Whether `x` is one of the new child slots of a relocation that moves the
/// labels in `lab` to the base offset `bn`.
spec fn rl_nc(bn: int, lab: Seq<u8>, x: int) -> bool {
    bn <= x < bn + 256 && lab.contains((x - bn) as u8)
}

/// Whether `x` is one of the old child slots being vacated when the node
/// with base offset `ob` gives up the labels in `lab`.
spec fn rl_oc(ob: int, lab: Seq<u8>, x: int) -> bool {
    ob <= x < ob + 256 && lab.contains((x - ob) as u8)
}

/// The map described by inserting a sequence of (key, value) pairs in order,
/// as `DoubleArrayTrie::insert` promises to build it.
pub open spec fn map_of_pairs<V>(pairs: Seq<(Seq<u8>, V)>) -> Map<Seq<u8>, V>
    decreases pairs.len(),
{
    if pairs.len() == 0 {
        Map::empty()
    } else {
        map_of_pairs(pairs.drop_last()).insert(pairs.last().0, pairs.last().1)
    }
}

/// Round trip: inserting any finite set of pairs with pairwise distinct keys
/// and then looking one of the keys up yields the value it was inserted
/// with.  Together with the contracts of `insert` and `get`, which speak of
/// the same map, this pins the behaviour of the executable trie.
pub proof fn lemma_round_trip<V>(pairs: Seq<(Seq<u8>, V)>, i: int)
    requires
        0 <= i < pairs.len(),
        forall|a: int, b: int| 0 <= a < b < pairs.len() ==> pairs[a].0 != pairs[b].0,
    ensures
        map_of_pairs(pairs).contains_key(pairs[i].0),
        map_of_pairs(pairs)[pairs[i].0] == pairs[i].1,
    decreases pairs.len(),
{
    if i < pairs.len() - 1 {
        lemma_round_trip(pairs.drop_last(), i);
        assert(pairs.last().0 != pairs[i].0);
    }
}

/// Negative lookup: a key that none of the inserted pairs carries is not in
/// the resulting map, so `get` returns nothing and `contains` is false.
pub proof fn lemma_negative_lookup<V>(pairs: Seq<(Seq<u8>, V)>, k: Seq<u8>)
    requires
        forall|j: int| 0 <= j < pairs.len() ==> pairs[j].0 != k,
    ensures
        !map_of_pairs(pairs).contains_key(k),
    decreases pairs.len(),
{
    if pairs.len() > 0 {
        lemma_negative_lookup(pairs.drop_last(), k);
    }
}

/// Idempotent overwrite: inserting the same key twice leaves exactly one
/// binding, carrying the most recent value.
pub proof fn lemma_overwrite<V>(m: Map<Seq<u8>, V>, k: Seq<u8>, v1: V, v2: V)
    ensures
        m.insert(k, v1).insert(k, v2) == m.insert(k, v2),
{
    assert(m.insert(k, v1).insert(k, v2) =~= m.insert(k, v2));
}

/// A double-array trie mapping byte-string keys to values of type `V`.
///
/// State `0` is the root.  A state `s` is terminal exactly when `vals[s]`
/// holds a value; `vals` is the side channel for the terminal markers that
/// the two integer arrays cannot carry.
pub struct DoubleArrayTrie<V> {
    store: ArrayStore,
    vals: Vec<Option<V>>,
}

impl<V> DoubleArrayTrie<V> {
    spec fn bs(&self) -> Seq<usize> {
        self.store.base@
    }

    spec fn cs(&self) -> Seq<usize> {
        self.store.check@
    }

    spec fn vls(&self) -> Seq<Option<V>> {
        self.vals@
    }

    /// The common length of the three parallel arrays.
    pub closed spec fn table_len(&self) -> int {
        self.store.check@.len() as int
    }

    /// The candidate child index of state `p` under byte label `l`.
    spec fn tgt(&self, p: int, l: u8) -> int {
        self.bs()[p] as int + l as int
    }

    /// Whether state `p` has a transition under byte label `l`.
    spec fn is_child(&self, p: int, l: u8) -> bool {
        is_child_arr(self.bs(), self.cs(), p, l)
    }

    /// The state reached by walking the bytes of `k` from the root, if every
    /// byte has a transition owned by the state it leaves.
    spec fn sta(&self, k: Seq<u8>) -> Option<int> {
        sta_arr(self.bs(), self.cs(), k)
    }

    spec fn has_key(&self, k: Seq<u8>) -> bool {
        match self.sta(k) {
            Some(s) => self.vls()[s] is Some,
            None => false,
        }
    }

    spec fn val_of(&self, k: Seq<u8>) -> V {
        self.vls()[self.sta(k)->Some_0]->Some_0
    }

    /// Well-formedness of the representation, kept by every operation:
    /// the arrays agree in length, the root slot is never owned, every owned
    /// slot lies in the 256-byte window of its owner, owners are live states,
    /// no slot owns itself, and unused slots carry no value.
    pub closed spec fn inv(&self) -> bool {
        &&& self.store.wf()
        &&& self.vls().len() == self.table_len()
        &&& self.table_len() >= 1
        &&& self.cs()[0] == 0
        &&& self.bs()[0] >= 1
        &&& forall|x: int|
            0 <= x < self.table_len() && self.cs()[x] != 0 ==> 1 <= #[trigger] self.cs()[x]
                <= self.table_len()
        &&& forall|x: int|
            0 <= x < self.table_len() && self.cs()[x] != 0 ==> self.bs()[#[trigger] self.cs()[x]
                - 1] <= x < self.bs()[self.cs()[x] - 1] + 256
        &&& forall|x: int| 0 <= x < self.table_len() ==> #[trigger] self.cs()[x] != x + 1
        &&& forall|x: int|
            0 <= x < self.table_len() && #[trigger] self.cs()[x] > 1 ==> self.cs()[self.cs()[x]
                - 1] != 0
        &&& forall|x: int|
            1 <= x < self.table_len() && #[trigger] self.cs()[x] == 0 ==> self.vls()[x] is None
        &&& forall|x: int| 0 <= x < self.table_len() ==> #[trigger] self.bs()[x] <= self.table_len()
    }
}

impl<V> View for DoubleArrayTrie<V> {
    type V = Map<Seq<u8>, V>;

    /// The mathematical content of the trie: the map from each stored key to
    /// its value.
    closed spec fn view(&self) -> Map<Seq<u8>, V> {
        Map::new(|k: Seq<u8>| self.has_key(k), |k: Seq<u8>| self.val_of(k))
    }
}

impl<V> DoubleArrayTrie<V> {
    /// Creates an empty trie: one root state with a nonzero base offset, no
    /// transitions and no stored keys.
    pub fn new() -> (r: Self)
        ensures
            r.inv(),
            r@ == Map::<Seq<u8>, V>::empty(),
            r.table_len() == 1,
    {
        let r = DoubleArrayTrie {
            store: ArrayStore { base: vec![1], check: vec![0], first_free: 1 },
            vals: vec![None],
        };
        proof {
            assert forall|k: Seq<u8>| !r.has_key(k) by {
                if k.len() > 0 {
                    r.lemma_sta_prefix_none(seq![k[0]], k);
                }
            }
            assert(r@ =~= Map::<Seq<u8>, V>::empty());
        }
        r
    }

    /// A failed walk cannot be revived by more bytes: if some prefix of `k2`
    /// reaches no state, neither does `k2`.
    proof fn lemma_sta_prefix_none(&self, k1: Seq<u8>, k2: Seq<u8>)
        requires
            self.sta(k1) is None,
            k1.is_prefix_of(k2),
        ensures
            self.sta(k2) is None,
        decreases k2.len(),
    {
        if k2.len() > k1.len() {
            self.lemma_sta_prefix_none(k1, k2.drop_last());
        } else {
            assert(k2 =~= k1);
        }
    }

    /// Any state a walk reaches is in range, and only the empty key reaches
    /// the root.
    proof fn lemma_sta_bounds(&self, k: Seq<u8>)
        requires
            self.inv(),
            self.sta(k) is Some,
        ensures
            0 <= self.sta(k)->Some_0 < self.table_len(),
            self.sta(k)->Some_0 == 0 <==> k.len() == 0,
            self.sta(k)->Some_0 == 0 || self.cs()[self.sta(k)->Some_0] != 0,
        decreases k.len(),
    {
        if k.len() > 0 {
            self.lemma_sta_bounds(k.drop_last());
        }
    }

    /// Distinct keys reach distinct states: the walk is injective.
    proof fn lemma_sta_injective(&self, k1: Seq<u8>, k2: Seq<u8>)
        requires
            self.inv(),
            self.sta(k1) is Some,
            self.sta(k1) == self.sta(k2),
        ensures
            k1 == k2,
        decreases k1.len(),
    {
        self.lemma_sta_bounds(k1);
        self.lemma_sta_bounds(k2);
        if k1.len() == 0 {
            assert(k1 =~= k2);
        } else {
            let s = self.sta(k1)->Some_0;
            let p1 = self.sta(k1.drop_last())->Some_0;
            let p2 = self.sta(k2.drop_last())->Some_0;
            assert(self.cs()[s] == p1 + 1 && self.cs()[s] == p2 + 1);
            self.lemma_sta_injective(k1.drop_last(), k2.drop_last());
            assert(self.tgt(p1, k1.last()) == self.tgt(p2, k2.last()));
            assert(k1.last() == k2.last());
            assert(k1 =~= k1.drop_last().push(k1.last()));
            assert(k2 =~= k2.drop_last().push(k2.last()));
        }
    }

    /// Extending the arrays with unused cells changes no walk and no stored
    /// key.
    proof fn lemma_grow_preserves(pre: &Self, post: &Self)
        requires
            1 <= pre.table_len() <= post.table_len(),
            forall|j: int|
                0 <= j < pre.table_len() ==> post.bs()[j] == pre.bs()[j] && post.cs()[j]
                    == pre.cs()[j] && post.vls()[j] == pre.vls()[j],
            forall|j: int|
                pre.table_len() <= j < post.table_len() ==> post.cs()[j] == 0 && post.vls()[j]
                    is None,
        ensures
            forall|k: Seq<u8>| #[trigger] post.sta(k) == pre.sta(k),
            post@ == pre@,
    {
        assert forall|k: Seq<u8>| #[trigger] post.sta(k) == pre.sta(k) by {
            Self::lemma_grow_sta(pre, post, k);
        }
        assert forall|k: Seq<u8>| post.has_key(k) == pre.has_key(k) && (pre.has_key(k)
            ==> post.val_of(k) == pre.val_of(k)) by {
            Self::lemma_grow_sta(pre, post, k);
            if pre.sta(k) is Some {
                Self::lemma_sta_stays_low(pre, k);
                let s = pre.sta(k)->Some_0;
                assert(0 <= s < pre.table_len());
                assert(post.vls()[s] == pre.vls()[s]);
            }
        }
        assert(post@ =~= pre@);
    }

    /// A walk only ever stands on the root or on an owned slot.
    proof fn lemma_sta_stays_low(&self, k: Seq<u8>)
        requires
            self.sta(k) is Some,
        ensures
            0 <= self.sta(k)->Some_0 < self.table_len() || self.sta(k)->Some_0 == 0,
            k.len() > 0 ==> 0 <= self.sta(k)->Some_0 < self.table_len() && self.cs()[self.sta(
                k,
            )->Some_0] != 0,
        decreases k.len(),
    {
        if k.len() > 0 {
            self.lemma_sta_stays_low(k.drop_last());
        }
    }

    proof fn lemma_grow_sta(pre: &Self, post: &Self, k: Seq<u8>)
        requires
            pre.table_len() <= post.table_len(),
            forall|j: int|
                0 <= j < pre.table_len() ==> post.bs()[j] == pre.bs()[j] && post.cs()[j]
                    == pre.cs()[j],
            forall|j: int| pre.table_len() <= j < post.table_len() ==> post.cs()[j] == 0,
        ensures
            post.sta(k) == pre.sta(k),
        decreases k.len(),
    {
        if k.len() > 0 {
            Self::lemma_grow_sta(pre, post, k.drop_last());
            if pre.sta(k.drop_last()) is Some {
                let p = pre.sta(k.drop_last())->Some_0;
                Self::lemma_sta_stays_low(pre, k.drop_last());
            }
        }
    }

    /// Grows all three arrays until index `i` is valid; fresh cells are
    /// unused and carry no value, so no walk and no stored key changes.
    fn grow(&mut self, i: usize)
        requires
            old(self).inv(),
            i < usize::MAX,
        ensures
            final(self).inv(),
            final(self)@ == old(self)@,
            final(self).table_len() == if old(self).table_len() >= i + 1 {
                old(self).table_len()
            } else {
                i + 1
            },
            forall|j: int|
                0 <= j < old(self).table_len() ==> final(self).bs()[j] == old(self).bs()[j]
                    && final(self).cs()[j] == old(self).cs()[j] && final(self).vls()[j] == old(
                    self,
                ).vls()[j],
            forall|j: int|
                old(self).table_len() <= j < final(self).table_len() ==> final(self).cs()[j] == 0
                    && final(self).vls()[j] is None && final(self).bs()[j] == 0,
            forall|k: Seq<u8>| #[trigger] final(self).sta(k) == old(self).sta(k),
    {
        self.store.ensure_capacity(i);
        while self.vals.len() < self.store.len()
            invariant
                old(self).inv(),
                self.store.wf(),
                self.table_len() == if old(self).table_len() >= i + 1 {
                    old(self).table_len()
                } else {
                    i as int + 1
                },
                forall|j: int|
                    0 <= j < old(self).table_len() ==> self.bs()[j] == old(self).bs()[j]
                        && self.cs()[j] == old(self).cs()[j],
                forall|j: int|
                    old(self).table_len() <= j < self.table_len() ==> self.bs()[j] == 0
                        && self.cs()[j] == 0,
                old(self).vls().len() <= self.vls().len() <= self.table_len(),
                forall|j: int|
                    0 <= j < old(self).table_len() ==> self.vls()[j] == old(self).vls()[j],
                forall|j: int|
                    old(self).table_len() <= j < self.vls().len() ==> self.vls()[j] is None,
            decreases self.table_len() - self.vls().len(),
        {
            self.vals.push(None);
        }
        proof {
            Self::lemma_grow_preserves(old(self), self);
            assert(final(self).inv());
        }
    }

    /// Walks the bytes of `key` from the root, verifying ownership at each
    /// step, and returns the state the full key reaches, if any.
    fn state(&self, key: &[u8]) -> (r: Option<usize>)
        requires
            self.inv(),
        ensures
            match r {
                Some(s) => self.sta(key@) == Some(s as int),
                None => self.sta(key@) is None,
            },
    {
        let n = self.store.len();
        let mut s: usize = 0;
        let mut i: usize = 0;
        while i < key.len()
            invariant
                self.inv(),
                n == self.table_len(),
                i <= key@.len(),
                self.sta(key@.take(i as int)) == Some(s as int),
                s < n,
            decreases key@.len() - i,
        {
            let b = key[i];
            let off = self.store.read_base(s);
            let ghost pfx = key@.take(i as int);
            let ghost pfx2 = key@.take(i as int + 1);
            proof {
                assert(pfx2.drop_last() =~= pfx);
                assert(pfx2.last() == b);
            }
            if off >= n {
                proof {
                    assert(self.sta(pfx2) is None);
                    self.lemma_sta_prefix_none(pfx2, key@);
                }
                return None;
            }
            if (b as usize) >= n - off {
                proof {
                    assert(self.sta(pfx2) is None);
                    self.lemma_sta_prefix_none(pfx2, key@);
                }
                return None;
            }
            let t = off + (b as usize);
            let ct = self.store.read_check(t);
            if ct != s + 1 {
                proof {
                    assert(self.sta(pfx2) is None);
                    self.lemma_sta_prefix_none(pfx2, key@);
                }
                return None;
            }
            s = t;
            i = i + 1;
        }
        proof {
            assert(key@.take(i as int) =~= key@);
        }
        Some(s)
    }

    /// Looks a key up: returns its stored value, or nothing when the key was
    /// never inserted (including when it is only a proper prefix of stored
    /// keys).
    pub fn get(&self, key: &[u8]) -> (r: Option<&V>)
        requires
            self.inv(),
        ensures
            match r {
                Some(v) => self@.contains_key(key@) && *v == self@[key@],
                None => !self@.contains_key(key@),
            },
    {
        match self.state(key) {
            None => None,
            Some(s) => {
                proof {
                    self.lemma_sta_bounds(key@);
                }
                match &self.vals[s] {
                    Some(v) => Some(v),
                    None => None,
                }
            },
        }
    }

    /// Whether the key was inserted.
    pub fn contains(&self, key: &[u8]) -> (r: bool)
        requires
            self.inv(),
        ensures
            r == self@.contains_key(key@),
    {
        self.get(key).is_some()
    }

    /// Claiming an unused slot `t` as the child of a live state `s` adds
    /// exactly the one transition: walks that existed before are untouched,
    /// and the only new walks end at `t`, which carries no value, so the
    /// stored keys do not change.
    proof fn lemma_claim_fwd(pre: &Self, post: &Self, s: int, b: u8, t: int, k: Seq<u8>)
        requires
            pre.inv(),
            0 <= s < pre.table_len(),
            s < usize::MAX,
            s == 0 || pre.cs()[s] != 0,
            t == pre.tgt(s, b),
            0 < t < pre.table_len(),
            pre.cs()[t] == 0,
            post.bs() == pre.bs(),
            post.vls() == pre.vls(),
            post.cs() == pre.cs().update(t, (s + 1) as usize),
            pre.sta(k) is Some,
        ensures
            post.sta(k) == pre.sta(k),
        decreases k.len(),
    {
        if k.len() > 0 {
            Self::lemma_claim_fwd(pre, post, s, b, t, k.drop_last());
            let p = pre.sta(k.drop_last())->Some_0;
            let x = pre.tgt(p, k.last());
            assert(pre.cs()[x] == p + 1);
            assert(x != t);
        }
    }

    proof fn lemma_claim_bwd(pre: &Self, post: &Self, s: int, b: u8, t: int, k: Seq<u8>)
        requires
            pre.inv(),
            0 <= s < pre.table_len(),
            s < usize::MAX,
            s == 0 || pre.cs()[s] != 0,
            t == pre.tgt(s, b),
            0 < t < pre.table_len(),
            pre.cs()[t] == 0,
            post.bs() == pre.bs(),
            post.vls() == pre.vls(),
            post.cs() == pre.cs().update(t, (s + 1) as usize),
            post.sta(k) is Some,
        ensures
            pre.sta(k) == post.sta(k) || (post.sta(k) == Some(t) && pre.sta(k) is None),
        decreases k.len(),
    {
        if k.len() > 0 {
            Self::lemma_claim_bwd(pre, post, s, b, t, k.drop_last());
            let p = post.sta(k.drop_last())->Some_0;
            let x = post.tgt(p, k.last());
            assert(post.cs()[x] == p + 1);
            if pre.sta(k.drop_last()) == post.sta(k.drop_last()) {
                if x == t {
                    assert(p == s);
                    assert(pre.cs()[x] == 0);
                    assert(pre.sta(k) is None);
                } else {
                    assert(pre.cs()[x] == post.cs()[x]);
                }
            } else {
                assert(p == t);
                if x == t {
                    assert(post.cs()[t] == s + 1 && post.cs()[x] == t + 1);
                    assert(s != t);
                    assert(false);
                } else {
                    assert(pre.cs()[x] == t + 1);
                    assert(t + 1 > 1);
                    assert(pre.cs()[t] != 0);
                    assert(false);
                }
            }
        }
    }

    /// Writes `check[t] = s + 1` for an unused slot `t` in the window of the
    /// live state `s`: the new transition is the only observable change, and
    /// no stored key is touched.
    fn claim(&mut self, s: usize, b: u8, t: usize)
        requires
            old(self).inv(),
            s < old(self).table_len(),
            s == 0 || old(self).cs()[s as int] != 0,
            t as int == old(self).tgt(s as int, b),
            0 < t,
            t < old(self).table_len(),
            old(self).cs()[t as int] == 0,
        ensures
            final(self).inv(),
            final(self)@ == old(self)@,
            final(self).table_len() == old(self).table_len(),
            final(self).bs() == old(self).bs(),
            final(self).vls() == old(self).vls(),
            final(self).cs() == old(self).cs().update(t as int, (s + 1) as usize),
            forall|k: Seq<u8>|
                old(self).sta(k) is Some ==> #[trigger] final(self).sta(k) == old(self).sta(k),
            forall|k: Seq<u8>|
                old(self).sta(k) == Some(s as int) ==> #[trigger] final(self).sta(k.push(b))
                    == Some(t as int),
    {
        let sl = self.store.len();
        self.store.write_check(t, s + 1);
        proof {
            let pre = old(self);
            let post = &*self;
            assert(s != t);
            assert forall|k: Seq<u8>| pre.sta(k) is Some implies #[trigger] post.sta(k) == pre.sta(
                k,
            ) by {
                Self::lemma_claim_fwd(pre, post, s as int, b, t as int, k);
            }
            assert forall|k: Seq<u8>| pre.sta(k) == Some(s as int) implies #[trigger] post.sta(
                k.push(b),
            ) == Some(t as int) by {
                Self::lemma_claim_fwd(pre, post, s as int, b, t as int, k);
                assert(k.push(b).drop_last() =~= k);
                assert(post.is_child(s as int, b));
            }
            assert forall|k: Seq<u8>| post.has_key(k) == pre.has_key(k) && (pre.has_key(k)
                ==> post.val_of(k) == pre.val_of(k)) by {
                if post.sta(k) is Some {
                    Self::lemma_claim_bwd(pre, post, s as int, b, t as int, k);
                    if pre.sta(k) is None {
                        assert(post.sta(k) == Some(t as int));
                        assert(pre.vls()[t as int] is None);
                    }
                }
            }
            assert(post@ =~= pre@);
            assert(post.inv()) by {
                assert forall|x: int|
                    0 <= x < post.table_len() && #[trigger] post.cs()[x] > 1 implies post.cs()[
                    post.cs()[x] - 1] != 0 by {
                    if x != t {
                        assert(pre.cs()[x] == post.cs()[x]);
                        if pre.cs()[x] - 1 == t {
                            assert(pre.cs()[t as int] != 0);
                        }
                    }
                }
            }
        }
    }

    /// Computes the candidate child index `base[s] + b` per the transition
    /// rule, growing the store first so that the index is in range.
    fn target(&mut self, s: usize, b: u8) -> (t: usize)
        requires
            old(self).inv(),
            s < old(self).table_len(),
            old(self).table_len() + 256 <= usize::MAX,
        ensures
            final(self).inv(),
            final(self)@ == old(self)@,
            t as int == old(self).tgt(s as int, b),
            t < final(self).table_len(),
            old(self).table_len() <= final(self).table_len() <= old(self).table_len() + 256,
            forall|j: int|
                0 <= j < old(self).table_len() ==> final(self).bs()[j] == old(self).bs()[j]
                    && final(self).cs()[j] == old(self).cs()[j] && final(self).vls()[j] == old(
                    self,
                ).vls()[j],
            forall|j: int|
                old(self).table_len() <= j < final(self).table_len() ==> final(self).cs()[j] == 0
                    && final(self).vls()[j] is None && final(self).bs()[j] == 0,
            forall|k: Seq<u8>| #[trigger] final(self).sta(k) == old(self).sta(k),
    {
        let off = self.store.read_base(s);
        let t = off + (b as usize);
        self.grow(t);
        t
    }

    /// Whether state `parent` owns index `index` as a child slot: the index
    /// is within bounds and its check entry records `parent`.
    fn owns(&self, parent: usize, index: usize) -> (r: bool)
        requires
            self.inv(),
            parent < self.table_len(),
        ensures
            r == (index < self.table_len() && self.cs()[index as int] == parent + 1),
    {
        if index >= self.store.len() {
            return false;
        }
        self.store.read_check(index) == parent + 1
    }

    /// Whether index `index` is unused and available for allocation; the
    /// permanent root slot never is.
    fn is_free(&self, index: usize) -> (r: bool)
        requires
            self.inv(),
        ensures
            r == (index != 0 && index < self.table_len() && self.cs()[index as int] == 0),
    {
        if index == 0 || index >= self.store.len() {
            return false;
        }
        self.store.read_check(index) == 0
    }

    /// Enumerates, in increasing order, the byte labels under which state
    /// `n` currently has a child.
    fn child_labels(&self, n: usize) -> (labels: Vec<u8>)
        requires
            self.inv(),
            n < self.table_len(),
        ensures
            forall|l: u8| labels@.contains(l) <==> self.is_child(n as int, l),
            forall|i: int, j: int| 0 <= i < j < labels@.len() ==> labels@[i] < labels@[j],
    {
        let mut labels: Vec<u8> = Vec::new();
        let off = self.store.read_base(n);
        let sl = self.store.len();
        if off >= sl {
            proof {
                assert(forall|l: u8| !self.is_child(n as int, l));
            }
            return labels;
        }
        let lim: usize = if sl - off > 256 {
            256
        } else {
            sl - off
        };
        let mut l2: usize = 0;
        while l2 < lim
            invariant
                self.inv(),
                n < self.table_len(),
                off == self.bs()[n as int],
                off < sl,
                sl == self.table_len(),
                lim <= 256,
                lim == if sl - off > 256 {
                    256int
                } else {
                    sl - off
                },
                l2 <= lim,
                forall|l: u8|
                    labels@.contains(l) <==> (self.is_child(n as int, l) && (l as int) < l2),
                forall|i: int, j: int| 0 <= i < j < labels@.len() ==> labels@[i] < labels@[j],
                forall|i: int| 0 <= i < labels@.len() ==> (labels@[i] as int) < l2,
            decreases lim - l2,
        {
            let ct = self.store.read_check(off + l2);
            if ct == n + 1 {
                let ghost prev = labels@;
                labels.push(l2 as u8);
                proof {
                    assert forall|l: u8| labels@.contains(l) implies (self.is_child(n as int, l)
                        && (l as int) < l2 + 1) by {
                        if l != (l2 as u8) {
                            assert(prev.contains(l));
                        }
                    }
                    assert forall|l: u8| self.is_child(n as int, l) && (l as int) < l2 + 1 implies
                        labels@.contains(l) by {
                        if (l as int) < l2 {
                            assert(prev.contains(l));
                            assert(labels@[prev.index_of(l)] == l);
                        } else {
                            assert(labels@.last() == l);
                        }
                    }
                }
            }
            l2 = l2 + 1;
        }
        proof {
            assert forall|l: u8| self.is_child(n as int, l) implies (l as int) < lim by {
                if (l as int) >= lim {
                    assert(self.tgt(n as int, l) >= self.table_len());
                }
            }
        }
        labels
    }

    /// Whether every label in `labels` lands on an unused slot when the base
    /// offset `cand` is used (slots past the current end count as unused:
    /// growth will supply them).
    fn fits(&self, cand: usize, labels: &Vec<u8>) -> (r: bool)
        requires
            self.inv(),
            1 <= cand <= self.table_len(),
            self.table_len() + 256 <= usize::MAX,
        ensures
            r == forall|i: int|
                0 <= i < labels@.len() ==> (cand + labels@[i] < self.table_len()
                    ==> self.cs()[cand + labels@[i]] == 0),
    {
        let sl = self.store.len();
        let mut j: usize = 0;
        while j < labels.len()
            invariant
                self.inv(),
                1 <= cand <= self.table_len(),
                self.table_len() + 256 <= usize::MAX,
                sl == self.table_len(),
                j <= labels@.len(),
                forall|i: int|
                    0 <= i < j ==> (cand + labels@[i] < self.table_len() ==> self.cs()[cand
                        + labels@[i]] == 0),
            decreases labels@.len() - j,
        {
            let t = cand + (labels[j] as usize);
            if t < sl {
                let ct = self.store.read_check(t);
                if ct != 0 {
                    return false;
                }
            }
            j = j + 1;
        }
        true
    }

    /// Searches, from the store's low-water mark, for the smallest candidate
    /// base offset from which every given label lands on an unused slot, and
    /// grows the store so that all those slots are in range.
    #[verifier::rlimit(50)]
    fn find_free_base(&mut self, labels: &Vec<u8>) -> (bn: usize)
        requires
            old(self).inv(),
            labels@.len() >= 1,
            old(self).table_len() + 256 <= usize::MAX,
        ensures
            final(self).inv(),
            final(self)@ == old(self)@,
            old(self).table_len() <= final(self).table_len() <= old(self).table_len() + 256,
            forall|j: int|
                0 <= j < old(self).table_len() ==> final(self).bs()[j] == old(self).bs()[j]
                    && final(self).cs()[j] == old(self).cs()[j] && final(self).vls()[j] == old(
                    self,
                ).vls()[j],
            forall|j: int|
                old(self).table_len() <= j < final(self).table_len() ==> final(self).cs()[j] == 0
                    && final(self).vls()[j] is None && final(self).bs()[j] == 0,
            forall|k: Seq<u8>| #[trigger] final(self).sta(k) == old(self).sta(k),
            1 <= bn <= old(self).table_len(),
            forall|i: int|
                0 <= i < labels@.len() ==> bn + labels@[i] < final(self).table_len()
                    && final(self).cs()[bn + labels@[i]] == 0,
    {
        let sl = self.store.len();
        let mut ff = self.store.first_free;
        if ff > sl {
            ff = sl;
        }
        if ff < 1 {
            ff = 1;
        }
        while ff < sl && self.store.read_check(ff) != 0
            invariant
                self.inv(),
                1 <= ff <= sl,
                sl == self.table_len(),
            decreases sl - ff,
        {
            ff = ff + 1;
        }
        self.store.first_free = ff;
        let mut minl: u8 = labels[0];
        let mut maxl: u8 = labels[0];
        let mut j: usize = 1;
        while j < labels.len()
            invariant
                j <= labels@.len(),
                labels@.len() >= 1,
                forall|i: int| 0 <= i < j ==> labels@[i] <= maxl,
            decreases labels@.len() - j,
        {
            if labels[j] < minl {
                minl = labels[j];
            }
            if labels[j] > maxl {
                maxl = labels[j];
            }
            j = j + 1;
        }
        let mut cand: usize = if ff > (minl as usize) {
            ff - (minl as usize)
        } else {
            1
        };
        if cand > sl {
            cand = sl;
        }
        while !self.fits(cand, labels)
            invariant
                self.inv(),
                1 <= cand <= sl,
                sl == self.table_len(),
                self.table_len() + 256 <= usize::MAX,
            decreases sl - cand,
        {
            proof {
                if cand == sl {
                    assert forall|i: int|
                        0 <= i < labels@.len() && cand + labels@[i]
                        < self.table_len() implies self.cs()[cand + labels@[i]] == 0 by {
                        assert(cand + labels@[i] >= sl);
                    }
                    assert(false);
                }
            }
            cand = cand + 1;
        }
        let ghost mid = *self;
        proof {
            assert(mid.bs() == old(self).bs() && mid.cs() == old(self).cs() && mid.vls() == old(
                self,
            ).vls());
            assert forall|k: Seq<u8>| mid.has_key(k) == old(self).has_key(k) && (mid.has_key(k)
                ==> mid.val_of(k) == old(self).val_of(k)) by {
                assert(mid.sta(k) == old(self).sta(k));
            }
            assert(mid@ =~= old(self)@);
        }
        self.grow(cand + (maxl as usize));
        proof {
            assert(mid.table_len() == old(self).table_len());
            assert forall|j: int|
                mid.table_len() <= j < self.table_len() implies self.cs()[j] == 0 && self.vls()[j]
                    is None && self.bs()[j] == 0 by {}
            assert forall|j: int|
                old(self).table_len() <= j < self.table_len() implies self.cs()[j] == 0
                    && self.vls()[j] is None && self.bs()[j] == 0 by {
                assert(mid.table_len() <= j < self.table_len());
            }
            assert forall|i: int|
                0 <= i < labels@.len() implies cand + labels@[i] < self.table_len() && self.cs()[
                cand + labels@[i]] == 0 by {
                assert(labels@[i] <= maxl);
                if cand + labels@[i] < mid.table_len() {
                    assert(mid.cs()[cand + labels@[i]] == 0);
                }
            }
        }
        cand
    }

    /// Where state `x` stands after the children of node `n` move to the
    /// base offset `bn`: children of `n` are renumbered, everything else
    /// keeps its index.
    spec fn moved_to(&self, n: int, bn: int, x: int) -> int {
        if 0 <= x < self.table_len() && self.cs()[x] == n + 1 {
            bn + (x - self.bs()[n])
        } else {
            x
        }
    }

    spec fn moved_opt(&self, n: int, bn: int, o: Option<int>) -> Option<int> {
        match o {
            None => None,
            Some(x) => Some(self.moved_to(n, bn, x)),
        }
    }

    /// The check array after node `n`'s children under the labels `lab` have
    /// moved to the base offset `bn`: new slots are owned by `n`, vacated
    /// slots become unused, grandchildren follow their parent's new index,
    /// and everything else is untouched.
    spec fn fin_c(&self, n: int, bn: int, lab: Seq<u8>, x: int) -> int {
        if rl_nc(bn, lab, x) {
            n + 1
        } else if rl_oc(self.bs()[n] as int, lab, x) {
            0
        } else if self.cs()[x] != 0 && rl_oc(self.bs()[n] as int, lab, self.cs()[x] - 1) {
            bn + (self.cs()[x] - 1 - self.bs()[n]) + 1
        } else {
            self.cs()[x] as int
        }
    }

    /// The base array after the same relocation: new slots take over the
    /// offsets of the slots they replace, `n` takes the new base.
    spec fn fin_b(&self, n: int, bn: int, lab: Seq<u8>, x: int) -> int {
        if rl_nc(bn, lab, x) {
            self.bs()[self.bs()[n] + (x - bn)] as int
        } else if x == n {
            bn
        } else {
            self.bs()[x] as int
        }
    }

    /// The value array after the same relocation: values travel with their
    /// states.
    spec fn fin_v(&self, n: int, bn: int, lab: Seq<u8>, x: int) -> Option<V> {
        if rl_nc(bn, lab, x) {
            self.vls()[self.bs()[n] + (x - bn)]
        } else if rl_oc(self.bs()[n] as int, lab, x) {
            None
        } else {
            self.vls()[x]
        }
    }

    /// The preconditions shared by the relocation lemmas: `n` is a live
    /// state, `lab` is exactly its set of child labels, and the window at
    /// `bn` is unused.
    spec fn reloc_pre(&self, n: int, bn: int, lab: Seq<u8>) -> bool {
        &&& self.inv()
        &&& 0 <= n < self.table_len()
        &&& n == 0 || self.cs()[n] != 0
        &&& 1 <= bn <= self.table_len()
        &&& forall|l: u8| lab.contains(l) <==> self.is_child(n, l)
        &&& forall|l: u8|
            #[trigger] lab.contains(l) ==> bn + l < self.table_len() && self.cs()[bn + l as int]
                == 0
    }

    /// What the relocated arrays look like, pointwise.
    spec fn reloc_post(&self, post: &Self, n: int, bn: int, lab: Seq<u8>) -> bool {
        &&& post.table_len() == self.table_len()
        &&& post.store.wf()
        &&& post.vls().len() == self.vls().len()
        &&& forall|x: int|
            0 <= x < self.table_len() ==> #[trigger] post.cs()[x] as int == self.fin_c(
                n,
                bn,
                lab,
                x,
            )
        &&& forall|x: int|
            0 <= x < self.table_len() ==> #[trigger] post.bs()[x] as int == self.fin_b(
                n,
                bn,
                lab,
                x,
            )
        &&& forall|x: int|
            0 <= x < self.table_len() ==> #[trigger] post.vls()[x] == self.fin_v(n, bn, lab, x)
    }

    /// Basic consequences of the relocation preconditions: the three kinds
    /// of touched slots are disjoint, and neither `n` nor any live state is
    /// a new slot.
    proof fn lemma_reloc_slots(&self, n: int, bn: int, lab: Seq<u8>)
        requires
            self.reloc_pre(n, bn, lab),
        ensures
            forall|x: int| rl_nc(bn, lab, x) ==> 0 < x < self.table_len() && self.cs()[x] == 0,
            forall|x: int|
                rl_oc(self.bs()[n] as int, lab, x) ==> 0 < x < self.table_len() && self.cs()[x] == n
                    + 1,
            forall|x: int|
                0 <= x < self.table_len() && self.cs()[x] == n + 1 ==> rl_oc(
                    self.bs()[n] as int,
                    lab,
                    x,
                ),
            !rl_nc(bn, lab, n),
            !rl_oc(self.bs()[n] as int, lab, n),
    {
        assert forall|x: int| rl_nc(bn, lab, x) implies 0 < x < self.table_len() && self.cs()[x]
            == 0 by {
            let l = (x - bn) as u8;
            assert(lab.contains(l));
            assert(bn + l == x);
        }
        assert forall|x: int|
            rl_oc(self.bs()[n] as int, lab, x) implies 0 < x < self.table_len() && self.cs()[x] == n
            + 1 by {
            let l = (x - self.bs()[n]) as u8;
            assert(lab.contains(l));
            assert(self.is_child(n, l));
            assert(self.bs()[n] + l == x);
        }
        assert forall|x: int|
            0 <= x < self.table_len() && self.cs()[x] == n + 1 implies rl_oc(
            self.bs()[n] as int,
            lab,
            x,
        ) by {
            assert(self.bs()[n] <= x < self.bs()[n] + 256);
            let l = (x - self.bs()[n]) as u8;
            assert(self.is_child(n, l));
            assert(lab.contains(l));
        }
        if rl_nc(bn, lab, n) {
            assert(self.cs()[n] == 0);
            assert(n == 0);
        }
        if rl_oc(self.bs()[n] as int, lab, n) {
            assert(self.cs()[n] == n + 1);
        }
    }

    /// The walk after a relocation is the walk before it, with the moved
    /// children renumbered: relocation preserves every key's walk up to the
    /// renaming.
    #[verifier::rlimit(100)]
    #[verifier::spinoff_prover]
    proof fn lemma_reloc_sta(pre: &Self, post: &Self, n: int, bn: int, lab: Seq<u8>, k: Seq<u8>)
        requires
            pre.reloc_pre(n, bn, lab),
            pre.reloc_post(post, n, bn, lab),
        ensures
            post.sta(k) == pre.moved_opt(n, bn, pre.sta(k)),
        decreases k.len(),
    {
        pre.lemma_reloc_slots(n, bn, lab);
        let tl = pre.table_len();
        let ob = pre.bs()[n] as int;
        if k.len() == 0 {
            assert(pre.moved_to(n, bn, 0) == 0);
        } else {
            Self::lemma_reloc_sta(pre, post, n, bn, lab, k.drop_last());
            let b = k.last();
            if pre.sta(k.drop_last()) is Some {
                let p = pre.sta(k.drop_last())->Some_0;
                pre.lemma_sta_stays_low(k.drop_last());
                assert(0 <= p < tl);
                assert(p == 0 || pre.cs()[p] != 0);
                let q = pre.moved_to(n, bn, p);
                if pre.cs()[p] == n + 1 {
                    // p is a moved child of n; its slot data followed it to q
                    assert(rl_oc(ob, lab, p));
                    assert(rl_nc(bn, lab, q)) by {
                        assert(lab.contains((p - ob) as u8));
                        assert((q - bn) as u8 == (p - ob) as u8);
                    }
                    assert(0 < q < tl);
                    assert(post.bs()[q] as int == pre.bs()[p] as int) by {
                        assert(ob + (q - bn) == p);
                    }
                    let x = pre.bs()[p] as int + b as int;
                    assert(post.bs()[q] as int + b as int == x);
                    if x < tl {
                        if rl_nc(bn, lab, x) {
                            assert(pre.cs()[x] == 0);
                            assert(post.cs()[x] as int == n + 1);
                            assert(q != n);
                            assert(pre.cs()[x] != p + 1);
                            assert(post.cs()[x] as int != q + 1);
                        } else if rl_oc(ob, lab, x) {
                            assert(pre.cs()[x] == n + 1);
                            assert(pre.cs()[n] != n + 1);
                            assert(p != n);
                            assert(post.cs()[x] as int == 0);
                        } else if pre.cs()[x] != 0 && rl_oc(ob, lab, pre.cs()[x] - 1) {
                            let oc = pre.cs()[x] - 1;
                            assert(pre.cs()[oc] == n + 1);
                            assert(post.cs()[x] as int == bn + (oc - ob) + 1);
                            assert((pre.cs()[x] == p + 1) <==> (oc == p));
                            assert((bn + (oc - ob) + 1 == q + 1) <==> (oc == p));
                            assert(pre.moved_to(n, bn, x) == x) by {
                                if pre.cs()[x] == n + 1 {
                                    assert(oc == n);
                                    assert(pre.cs()[n] == n + 1);
                                }
                            }
                        } else {
                            assert(post.cs()[x] as int == pre.cs()[x] as int);
                            assert(pre.cs()[x] != p + 1) by {
                                if pre.cs()[x] == p + 1 {
                                    assert(rl_oc(ob, lab, pre.cs()[x] - 1));
                                }
                            }
                            assert(post.cs()[x] as int != q + 1) by {
                                if post.cs()[x] as int == q + 1 {
                                    assert(pre.cs()[x] == q + 1);
                                    assert(pre.cs()[q] == 0);
                                    assert(q >= 1);
                                    assert(pre.cs()[x] > 1);
                                    assert(pre.cs()[pre.cs()[x] - 1] != 0);
                                }
                            }
                        }
                    }
                } else {
                    assert(q == p);
                    if p == n {
                        assert(post.bs()[n] as int == bn);
                        let xo = ob + b as int;
                        let xn = bn + b as int;
                        if lab.contains(b) {
                            assert(pre.is_child(n, b));
                            assert(pre.cs()[xo] == n + 1);
                            assert(rl_nc(bn, lab, xn)) by {
                                assert((xn - bn) as u8 == b);
                            }
                            assert(0 < xn < tl);
                            assert(post.cs()[xn] as int == n + 1);
                            assert(pre.moved_to(n, bn, xo) == xn) by {
                                assert(rl_oc(ob, lab, xo));
                            }
                        } else {
                            assert(!pre.is_child(n, b)) by {
                                if pre.is_child(n, b) {
                                    assert(lab.contains(b));
                                }
                            }
                            if xn < tl {
                                assert(post.cs()[xn] as int != n + 1) by {
                                    if rl_nc(bn, lab, xn) {
                                        assert(lab.contains((xn - bn) as u8));
                                        assert((xn - bn) as u8 == b);
                                    } else if rl_oc(ob, lab, xn) {
                                    } else if pre.cs()[xn] != 0 && rl_oc(ob, lab, pre.cs()[xn] - 1) {
                                        let oc = pre.cs()[xn] - 1;
                                        if bn + (oc - ob) + 1 == n + 1 {
                                            assert(rl_nc(bn, lab, n)) by {
                                                assert(lab.contains((oc - ob) as u8));
                                                assert((n - bn) as u8 == (oc - ob) as u8);
                                            }
                                        }
                                    } else {
                                        if pre.cs()[xn] == n + 1 {
                                            assert(rl_oc(ob, lab, xn));
                                        }
                                    }
                                }
                            }
                        }
                    } else {
                        // p keeps its index and its base
                        assert(post.bs()[p] as int == pre.bs()[p] as int) by {
                            if rl_nc(bn, lab, p) {
                                assert(pre.cs()[p] == 0);
                                assert(p == 0);
                            }
                        }
                        let x = pre.bs()[p] as int + b as int;
                        if x < tl {
                            if rl_nc(bn, lab, x) {
                                assert(pre.cs()[x] == 0);
                                assert(post.cs()[x] as int == n + 1);
                                assert(n != p);
                            } else if rl_oc(ob, lab, x) {
                                assert(pre.cs()[x] == n + 1);
                                assert(post.cs()[x] as int == 0);
                            } else if pre.cs()[x] != 0 && rl_oc(ob, lab, pre.cs()[x] - 1) {
                                let oc = pre.cs()[x] - 1;
                                assert(pre.cs()[oc] == n + 1);
                                assert(pre.cs()[p] != n + 1);
                                assert(oc != p);
                                assert(post.cs()[x] as int == bn + (oc - ob) + 1);
                                assert(post.cs()[x] as int != p + 1) by {
                                    if bn + (oc - ob) == p {
                                        assert(rl_nc(bn, lab, p)) by {
                                            assert(lab.contains((oc - ob) as u8));
                                            assert((p - bn) as u8 == (oc - ob) as u8);
                                        }
                                        assert(pre.cs()[p] == 0);
                                        assert(p == 0);
                                    }
                                }
                            } else {
                                assert(post.cs()[x] as int == pre.cs()[x] as int);
                                assert(pre.moved_to(n, bn, x) == x) by {
                                    if pre.cs()[x] == n + 1 {
                                        assert(rl_oc(ob, lab, x));
                                    }
                                }
                            }
                        }
                    }
                }
            }
        }
    }

    /// Relocation keeps the representation well-formed and the stored keys
    /// untouched.
    proof fn lemma_reloc_keeps(pre: &Self, post: &Self, n: int, bn: int, lab: Seq<u8>)
        requires
            pre.reloc_pre(n, bn, lab),
            pre.reloc_post(post, n, bn, lab),
        ensures
            post.inv(),
            post@ == pre@,
            forall|k: Seq<u8>| #[trigger] post.sta(k) == pre.moved_opt(n, bn, pre.sta(k)),
    {
        pre.lemma_reloc_slots(n, bn, lab);
        let tl = pre.table_len();
        let ob = pre.bs()[n] as int;
        assert forall|k: Seq<u8>| #[trigger] post.sta(k) == pre.moved_opt(n, bn, pre.sta(k)) by {
            Self::lemma_reloc_sta(pre, post, n, bn, lab, k);
        }
        assert forall|k: Seq<u8>| post.has_key(k) == pre.has_key(k) && (pre.has_key(k)
            ==> post.val_of(k) == pre.val_of(k)) by {
            if pre.sta(k) is Some {
                let x = pre.sta(k)->Some_0;
                pre.lemma_sta_stays_low(k);
                let y = pre.moved_to(n, bn, x);
                if 0 <= x < tl && pre.cs()[x] == n + 1 {
                    assert(rl_nc(bn, lab, y)) by {
                        assert(rl_oc(ob, lab, x));
                        assert(lab.contains((x - ob) as u8));
                        assert((y - bn) as u8 == (x - ob) as u8);
                    }
                    assert(post.vls()[y] == pre.vls()[ob + (y - bn)]);
                    assert(ob + (y - bn) == x);
                } else {
                    assert(y == x);
                    assert(post.vls()[x] == pre.vls()[x]) by {
                        if rl_nc(bn, lab, x) {
                            assert(pre.cs()[x] == 0 && 0 < x);
                        }
                        if rl_oc(ob, lab, x) {
                            assert(pre.cs()[x] == n + 1);
                        }
                    }
                }
            }
        }
        assert(post@ =~= pre@);
        // Well-formedness, clause by clause, over the pointwise description.
        assert(post.cs()[0] == 0) by {
            assert(!rl_nc(bn, lab, 0));
            assert(!rl_oc(ob, lab, 0)) by {
                if rl_oc(ob, lab, 0) {
                    assert(pre.cs()[0] == n + 1);
                }
            }
        }
        assert(post.bs()[0] as int >= 1) by {
            assert(!rl_nc(bn, lab, 0));
        }
        assert forall|x: int|
            0 <= x < tl && post.cs()[x] != 0 implies 1 <= post.cs()[x] <= tl && post.bs()[
            post.cs()[x] - 1] <= x < post.bs()[post.cs()[x] - 1] + 256 by {
            if rl_nc(bn, lab, x) {
                assert(post.cs()[x] as int == n + 1);
                assert(!rl_nc(bn, lab, n) && !rl_oc(ob, lab, n));
                assert(post.bs()[n] as int == bn);
            } else if rl_oc(ob, lab, x) {
                assert(post.cs()[x] as int == 0);
            } else if pre.cs()[x] != 0 && rl_oc(ob, lab, pre.cs()[x] - 1) {
                let oc = pre.cs()[x] - 1;
                assert(pre.cs()[oc] == n + 1);
                let nc = bn + (oc - ob);
                assert(post.cs()[x] as int == nc + 1);
                assert(rl_nc(bn, lab, nc)) by {
                    assert(lab.contains((oc - ob) as u8));
                    assert((nc - bn) as u8 == (oc - ob) as u8);
                }
                assert(0 < nc < tl);
                assert(post.bs()[nc] as int == pre.bs()[ob + (nc - bn)] as int);
                assert(ob + (nc - bn) == oc);
                assert(pre.bs()[oc] <= x < pre.bs()[oc] + 256);
            } else {
                let w = pre.cs()[x] - 1;
                assert(pre.cs()[x] == post.cs()[x]);
                assert(0 <= w < tl);
                assert(w != n) by {
                    if w == n {
                        assert(pre.cs()[x] == n + 1);
                        assert(rl_oc(ob, lab, x));
                    }
                }
                assert(post.bs()[w] as int == pre.bs()[w] as int) by {
                    if rl_nc(bn, lab, w) {
                        assert(pre.cs()[w] == 0 && 0 < w);
                        assert(pre.cs()[x] > 1);
                        assert(pre.cs()[pre.cs()[x] - 1] != 0);
                    }
                }
            }
        }
        assert forall|x: int| 0 <= x < tl implies post.cs()[x] != x + 1 by {
            if rl_nc(bn, lab, x) {
                assert(post.cs()[x] as int == n + 1);
                assert(!rl_nc(bn, lab, n));
            } else if rl_oc(ob, lab, x) {
            } else if pre.cs()[x] != 0 && rl_oc(ob, lab, pre.cs()[x] - 1) {
                let oc = pre.cs()[x] - 1;
                let nc = bn + (oc - ob);
                if post.cs()[x] as int == x + 1 {
                    assert(x == nc);
                    assert(rl_nc(bn, lab, nc)) by {
                        assert(lab.contains((oc - ob) as u8));
                        assert((nc - bn) as u8 == (oc - ob) as u8);
                    }
                    assert(pre.cs()[x] == 0);
                }
            } else {
            }
        }
        assert forall|x: int|
            0 <= x < tl && #[trigger] post.cs()[x] > 1 implies post.cs()[post.cs()[x] - 1]
            != 0 by {
            if rl_nc(bn, lab, x) {
                assert(post.cs()[x] as int == n + 1);
                if n >= 1 {
                    assert(pre.cs()[n] != 0);
                    assert(post.cs()[n] != 0) by {
                        assert(!rl_nc(bn, lab, n) && !rl_oc(ob, lab, n));
                        if pre.cs()[n] != 0 && rl_oc(ob, lab, pre.cs()[n] - 1) {
                            let oc = pre.cs()[n] - 1;
                            let nc = bn + (oc - ob);
                            assert(post.cs()[n] as int == nc + 1);
                            assert(rl_nc(bn, lab, nc)) by {
                                assert(lab.contains((oc - ob) as u8));
                                assert((nc - bn) as u8 == (oc - ob) as u8);
                            }
                            assert(0 < nc);
                        }
                    }
                }
            } else if rl_oc(ob, lab, x) {
            } else if pre.cs()[x] != 0 && rl_oc(ob, lab, pre.cs()[x] - 1) {
                let oc = pre.cs()[x] - 1;
                let nc = bn + (oc - ob);
                assert(post.cs()[x] as int == nc + 1);
                assert(rl_nc(bn, lab, nc)) by {
                    assert(lab.contains((oc - ob) as u8));
                    assert((nc - bn) as u8 == (oc - ob) as u8);
                }
                assert(0 < nc < tl);
                assert(post.cs()[nc] as int == n + 1);
            } else {
                let w = pre.cs()[x] - 1;
                assert(pre.cs()[w] != 0);
                assert(post.cs()[w] != 0) by {
                    assert(!rl_nc(bn, lab, w)) by {
                        if rl_nc(bn, lab, w) {
                            assert(pre.cs()[w] == 0);
                        }
                    }
                    assert(!rl_oc(ob, lab, w)) by {
                        if rl_oc(ob, lab, w) {
                            assert(pre.cs()[w] == n + 1);
                            assert(rl_oc(ob, lab, pre.cs()[x] - 1));
                        }
                    }
                    if pre.cs()[w] != 0 && rl_oc(ob, lab, pre.cs()[w] - 1) {
                        let oc = pre.cs()[w] - 1;
                        let nc = bn + (oc - ob);
                        assert(post.cs()[w] as int == nc + 1);
                        assert(rl_nc(bn, lab, nc)) by {
                            assert(lab.contains((oc - ob) as u8));
                            assert((nc - bn) as u8 == (oc - ob) as u8);
                        }
                        assert(0 < nc);
                    }
                }
            }
        }
        assert forall|x: int| 1 <= x < tl && post.cs()[x] == 0 implies post.vls()[x] is None by {
            if rl_nc(bn, lab, x) {
                assert(post.cs()[x] as int == n + 1);
            } else if rl_oc(ob, lab, x) {
                assert(post.vls()[x] is None);
            } else if pre.cs()[x] != 0 && rl_oc(ob, lab, pre.cs()[x] - 1) {
                let oc = pre.cs()[x] - 1;
                let nc = bn + (oc - ob);
                assert(post.cs()[x] as int == nc + 1);
                assert(rl_nc(bn, lab, nc)) by {
                    assert(lab.contains((oc - ob) as u8));
                    assert((nc - bn) as u8 == (oc - ob) as u8);
                }
                assert(0 < nc);
            } else {
                assert(pre.cs()[x] == 0);
                assert(pre.vls()[x] is None);
                assert(post.vls()[x] == pre.vls()[x]);
            }
        }
        assert forall|x: int| 0 <= x < tl implies post.bs()[x] as int <= tl by {
            if rl_nc(bn, lab, x) {
                assert(post.bs()[x] as int == pre.bs()[ob + (x - bn)] as int);
            } else if x == n {
            } else {
            }
        }
        assert(post.inv());
    }

    /// Growing the arrays with unused cells neither adds nor removes
    /// transitions of an existing state.
    proof fn lemma_grow_is_child(pre: &Self, post: &Self, n: int)
        requires
            pre.table_len() <= post.table_len(),
            forall|j: int|
                0 <= j < pre.table_len() ==> post.bs()[j] == pre.bs()[j] && post.cs()[j]
                    == pre.cs()[j],
            forall|j: int| pre.table_len() <= j < post.table_len() ==> post.cs()[j] == 0,
            0 <= n < pre.table_len(),
        ensures
            forall|l: u8| #[trigger] post.is_child(n, l) <==> pre.is_child(n, l),
    {
        assert forall|l: u8| #[trigger] post.is_child(n, l) <==> pre.is_child(n, l) by {
            assert(post.bs()[n] == pre.bs()[n]);
            let t = pre.bs()[n] + l as int;
            if t < pre.table_len() {
                assert(post.cs()[t] == pre.cs()[t]);
            } else if t < post.table_len() {
                assert(post.cs()[t] == 0);
            }
        }
    }

    /// Inserts `key` with `value`: walks the key from the root, reusing
    /// transitions it finds, claiming unused slots for the ones it lacks and
    /// relocating one of the two contending parents on a conflict, then marks
    /// the final state terminal.  An existing key has its value overwritten;
    /// every other stored key keeps its value.  The arrays never shrink.
    ///
    /// The precondition leaves room for the worst-case growth of the arrays,
    /// so that no index computation can leave the representable range; on a
    /// 64-bit machine it holds for every realistic trie.
    #[verifier::rlimit(100)]
    #[verifier::loop_isolation(false)]
    pub fn insert(&mut self, key: &[u8], value: V)
        requires
            old(self).inv(),
            old(self).table_len() + 512 * key@.len() + 512 <= usize::MAX,
        ensures
            final(self).inv(),
            final(self)@ == old(self)@.insert(key@, value),
            old(self).table_len() <= final(self).table_len() <= old(self).table_len() + 512
                * key@.len(),
    {
        let mut s: usize = 0;
        let mut i: usize = 0;
        while i < key.len()
            invariant
                self.inv(),
                i <= key@.len(),
                self.sta(key@.take(i as int)) == Some(s as int),
                s < self.table_len(),
                s == 0 || self.cs()[s as int] != 0,
                self@ == old(self)@,
                old(self).table_len() <= self.table_len() <= old(self).table_len() + 512 * i,
            decreases key@.len() - i,
        {
            let b = key[i];
            let ghost pfx = key@.take(i as int);
            let ghost pfx2 = key@.take(i as int + 1);
            proof {
                assert(pfx2.drop_last() =~= pfx);
                assert(pfx2 =~= pfx.push(b));
            }
            let t = self.target(s, b);
            proof {
                assert(self.sta(pfx) == Some(s as int));
                assert(t as int == self.tgt(s as int, b));
            }
            if self.owns(s, t) {
                proof {
                    assert(self.is_child(s as int, b));
                    assert(self.sta(pfx2) == Some(t as int));
                }
                s = t;
            } else if self.is_free(t) {
                self.claim(s, b, t);
                proof {
                    assert(self.sta(pfx.push(b)) == Some(t as int));
                }
                s = t;
            } else {
                let ct = self.store.read_check(t);
                let s_labels = self.child_labels(s);
                proof {
                    assert(!s_labels@.contains(b)) by {
                        if s_labels@.contains(b) {
                            assert(self.is_child(s as int, b));
                        }
                    }
                }
                // The parent with fewer children moves; a tie moves the slot's
                // present owner, keeping the just-inserted edge cheap.  The
                // root is permanent and never chosen as the victim, and a
                // computed index of 0 can never be owned, so both fall back to
                // moving the walking parent.
                let mut victim_s: bool = true;
                let mut other: usize = 0;
                if t != 0 {
                    other = ct - 1;
                    if other != 0 {
                        let o_count = self.child_labels(other).len();
                        if s_labels.len() < o_count {
                            victim_s = true;
                        } else {
                            victim_s = false;
                        }
                    }
                }
                if victim_s {
                    let mut all: Vec<u8> = Vec::new();
                    let mut ji: usize = 0;
                    while ji < s_labels.len()
                        invariant
                            ji <= s_labels@.len(),
                            all@ == s_labels@.take(ji as int),
                        decreases s_labels@.len() - ji,
                    {
                        all.push(s_labels[ji]);
                        ji = ji + 1;
                    }
                    all.push(b);
                    proof {
                        assert(s_labels@.take(s_labels@.len() as int) =~= s_labels@);
                        assert(all@ =~= s_labels@.push(b));
                    }
                    let ghost mid1 = *self;
                    let bn = self.find_free_base(&all);
                    proof {
                        Self::lemma_grow_is_child(&mid1, &*self, s as int);
                        assert forall|ix: int|
                            0 <= ix < s_labels@.len() implies bn + s_labels@[ix]
                            < self.table_len() && self.cs()[bn + s_labels@[ix]] == 0 by {
                            assert(all@[ix] == s_labels@[ix]);
                        }
                        assert(all@[s_labels@.len() as int] == b);
                        assert(bn + b < self.table_len() && self.cs()[bn + b as int] == 0);
                    }
                    let ghost mid2 = *self;
                    self.relocate(s, &s_labels, bn);
                    let t2 = self.store.read_base(s) + (b as usize);
                    proof {
                        assert(mid2.moved_to(s as int, bn as int, s as int) == s as int) by {
                            assert(mid2.cs()[s as int] != s + 1);
                        }
                        assert(self.sta(pfx) == Some(s as int)) by {
                            assert(mid2.sta(pfx) == Some(s as int));
                        }
                        assert(self.bs()[s as int] == bn);
                        assert(t2 == bn + b as usize);
                        assert(self.cs()[t2 as int] == 0) by {
                            assert(!s_labels@.contains(b));
                            assert(mid2.cs()[bn + b as int] == 0);
                        }
                        assert(s == 0 || self.cs()[s as int] != 0) by {
                            if s != 0 {
                                assert(mid2.cs()[s as int] != 0);
                                assert(self.cs()[mid2.moved_to(s as int, bn as int, s as int)]
                                    != 0);
                            }
                        }
                        assert(0 < t2);
                        assert(self@ == old(self)@);
                    }
                    self.claim(s, b, t2);
                    proof {
                        assert(self.sta(pfx.push(b)) == Some(t2 as int));
                    }
                    s = t2;
                } else {
                    let o_labels = self.child_labels(other);
                    proof {
                        assert(t < self.table_len());
                        assert(self.cs()[t as int] == other + 1);
                        assert(other < self.table_len());
                        assert(self.bs()[other as int] <= t as int);
                        assert((t as int) < self.bs()[other as int] + 256);
                        assert(o_labels@.contains(((t as int) - self.bs()[other as int]) as u8))
                            by {
                            assert(self.is_child(
                                other as int,
                                ((t as int) - self.bs()[other as int]) as u8,
                            ));
                        }
                        assert(o_labels@.len() >= 1);
                        assert(other == 0 || self.cs()[other as int] != 0) by {
                            assert(self.cs()[t as int] > 1);
                        }
                    }
                    let ghost mid1 = *self;
                    let bn = self.find_free_base(&o_labels);
                    proof {
                        Self::lemma_grow_is_child(&mid1, &*self, other as int);
                    }
                    let scheck = self.store.read_check(s);
                    let was_child = scheck == other + 1;
                    let old_ob = self.store.read_base(other);
                    let ghost mid2 = *self;
                    proof {
                        if was_child {
                            assert(mid2.bs()[other as int] <= s as int);
                            assert((s as int) < mid2.bs()[other as int] + 256);
                        }
                    }
                    self.relocate(other, &o_labels, bn);
                    if was_child {
                        s = bn + (s - old_ob);
                    }
                    proof {
                        let sm = mid2.moved_to(other as int, bn as int, mid2.sta(
                            pfx,
                        )->Some_0);
                        assert(self.sta(pfx) == Some(sm));
                        assert(sm == s as int);
                        assert(s < self.table_len());
                        assert(s == 0 || self.cs()[s as int] != 0) by {
                            if mid2.sta(pfx)->Some_0 != 0 {
                                assert(mid2.cs()[mid2.sta(pfx)->Some_0] != 0);
                            }
                        }
                        assert(self.bs()[s as int] == mid2.bs()[mid2.sta(pfx)->Some_0]) by {
                            assert(mid2.sta(pfx)->Some_0 != other) by {
                                assert(mid2.cs()[t as int] == other + 1);
                                assert(mid2.cs()[t as int] != other + 1 || t as int
                                    != mid2.tgt(other as int, b) || true);
                                if mid2.sta(pfx)->Some_0 == other {
                                    assert(ct != s + 1);
                                }
                            }
                        }
                        assert(t as int == self.bs()[s as int] + b as int);
                        assert(self.cs()[t as int] == 0) by {
                            assert(mid2.cs()[t as int] == other + 1);
                        }
                        assert(0 < t);
                        assert(self@ == old(self)@);
                    }
                    self.claim(s, b, t);
                    proof {
                        assert(self.sta(pfx.push(b)) == Some(t as int));
                    }
                    s = t;
                }
            }
            i = i + 1;
        }
        proof {
            assert(key@.take(i as int) =~= key@);
        }
        let ghost pre_term = *self;
        let _former = vec_set(&mut self.vals, s, Some(value));
        proof {
            assert(self.bs() == pre_term.bs() && self.cs() == pre_term.cs());
            assert(self.vls() == pre_term.vls().update(s as int, Some(value)));
            assert forall|k: Seq<u8>| #[trigger] self.sta(k) == pre_term.sta(k) by {}
            assert forall|k: Seq<u8>|
                self.has_key(k) == (k == key@ || pre_term.has_key(k)) && (self.has_key(k) && k
                    != key@ ==> self.val_of(k) == pre_term.val_of(k)) && (k == key@
                    ==> self.has_key(k) && self.val_of(k) == value) by {
                if pre_term.sta(k) is Some {
                    let x = pre_term.sta(k)->Some_0;
                    pre_term.lemma_sta_bounds(k);
                    if x == s as int {
                        pre_term.lemma_sta_injective(k, key@);
                        assert(k == key@);
                    } else {
                        assert(self.vls()[x] == pre_term.vls()[x]);
                    }
                } else {
                    if k == key@ {
                        assert(false);
                    }
                }
            }
            assert(self@ =~= pre_term@.insert(key@, value));
            assert(self.inv()) by {
                assert forall|x: int|
                    1 <= x < self.table_len() && #[trigger] self.cs()[x] == 0 implies self.vls()[x]
                    is None by {
                    assert(x != s as int);
                    assert(self.vls()[x] == pre_term.vls()[x]);
                }
            }
        }
    }

    /// A member of a prefix is a member of the whole sequence.
    proof fn lemma_take_contains(lab: Seq<u8>, j: int, e: u8)
        requires
            0 <= j <= lab.len(),
            lab.take(j).contains(e),
        ensures
            lab.contains(e),
    {
        let i = choose|i: int| 0 <= i < lab.take(j).len() && lab.take(j)[i] == e;
        assert(lab[i] == e);
    }

    /// Extending a prefix of pairwise-distinct labels by its next element
    /// extends each relocation window by exactly one slot.
    proof fn lemma_rl_push(base: int, lab: Seq<u8>, j: int, l: u8)
        requires
            0 <= j < lab.len(),
            lab[j] == l,
            forall|i1: int, i2: int| 0 <= i1 < i2 < lab.len() ==> lab[i1] != lab[i2],
        ensures
            forall|x: int|
                #[trigger] rl_nc(base, lab.take(j + 1), x) <==> (rl_nc(base, lab.take(j), x) || x
                    == base + l),
            !rl_nc(base, lab.take(j), base + l as int),
    {
        assert(lab.take(j + 1) =~= lab.take(j).push(l));
        let pj = lab.take(j);
        assert forall|x: int|
            #[trigger] rl_nc(base, lab.take(j + 1), x) <==> (rl_nc(base, lab.take(j), x) || x
                == base + l) by {
            if rl_nc(base, lab.take(j + 1), x) {
                let e = (x - base) as u8;
                assert(pj.push(l).contains(e));
                if e == l {
                    assert(x == base + l);
                } else {
                    let i = choose|i: int| 0 <= i < pj.push(l).len() && pj.push(l)[i] == e;
                    assert(i < pj.len());
                    assert(pj[i] == e);
                    assert(pj.contains(e));
                }
            }
            if rl_nc(base, pj, x) {
                let e = (x - base) as u8;
                let i = choose|i: int| 0 <= i < pj.len() && pj[i] == e;
                assert(pj.push(l)[i] == e);
                assert(lab.take(j + 1).contains(e));
            }
            if x == base + l {
                assert(lab.take(j + 1)[j] == l);
                assert(lab.take(j + 1).contains(l));
                assert((x - base) as u8 == l);
            }
        }
        if rl_nc(base, pj, base + l as int) {
            let e = ((base + l as int) - base) as u8;
            assert(e == l);
            let i = choose|i: int| 0 <= i < pj.len() && pj[i] == e;
            assert(lab[i] == l && lab[j] == l && i < j);
        }
    }

    /// Moves the whole child set of the live state `n` — whose labels are
    /// exactly `labels`, in increasing order — to the unused window at the
    /// base offset `bn`, repairing the ownership pointers of exactly one
    /// level of grandchildren, then gives `n` the new base.  No stored key
    /// changes; walks are preserved up to the renumbering of `n`'s children.
    #[verifier::rlimit(100)]
    #[verifier::loop_isolation(false)]
    fn relocate(&mut self, n: usize, labels: &Vec<u8>, bn: usize)
        requires
            old(self).inv(),
            n < old(self).table_len(),
            n == 0 || old(self).cs()[n as int] != 0,
            1 <= bn <= old(self).table_len(),
            old(self).table_len() + 256 <= usize::MAX,
            forall|l: u8| labels@.contains(l) <==> old(self).is_child(n as int, l),
            forall|i: int, j: int| 0 <= i < j < labels@.len() ==> labels@[i] < labels@[j],
            forall|i: int|
                0 <= i < labels@.len() ==> bn + labels@[i] < old(self).table_len() && old(
                    self,
                ).cs()[bn + labels@[i]] == 0,
        ensures
            final(self).inv(),
            final(self)@ == old(self)@,
            final(self).table_len() == old(self).table_len(),
            forall|k: Seq<u8>|
                #[trigger] final(self).sta(k) == old(self).moved_opt(
                    n as int,
                    bn as int,
                    old(self).sta(k),
                ),
            final(self).bs()[n as int] == bn,
            forall|x: int|
                0 <= x < old(self).table_len() && #[trigger] old(self).cs()[x] == n + 1
                    ==> final(self).cs()[x] == 0,
            forall|x: int|
                0 <= x < old(self).table_len() && (x == 0 || old(self).cs()[x] != 0) ==> 0
                    <= #[trigger] old(self).moved_to(n as int, bn as int, x) < old(
                    self,
                ).table_len(),
            forall|x: int|
                0 < x < old(self).table_len() && old(self).cs()[x] != 0 ==> final(self).cs()[
                    #[trigger] old(self).moved_to(n as int, bn as int, x)] != 0,
            forall|x: int|
                0 <= x < old(self).table_len() && (x == 0 || old(self).cs()[x] != 0) && x != n
                    ==> final(self).bs()[#[trigger] old(self).moved_to(n as int, bn as int, x)]
                    == old(self).bs()[x],
            forall|l: u8|
                !labels@.contains(l) && bn + l < old(self).table_len() && old(self).cs()[bn
                    + l as int] == 0 ==> final(self).cs()[bn + l as int] == 0,
    {
        proof {
            assert(old(self).reloc_pre(n as int, bn as int, labels@)) by {
                assert forall|l: u8| #[trigger] labels@.contains(l) implies bn + l < old(
                    self,
                ).table_len() && old(self).cs()[bn + l as int] == 0 by {
                    let i = choose|i: int| 0 <= i < labels@.len() && labels@[i] == l;
                    assert(bn + labels@[i] < old(self).table_len());
                }
            }
            old(self).lemma_reloc_slots(n as int, bn as int, labels@);
            assert forall|i1: int, i2: int|
                0 <= i1 < i2 < labels@.len() implies labels@[i1] != labels@[i2] by {
                assert(labels@[i1] < labels@[i2]);
            }
        }
        let ob = self.store.read_base(n);
        let sl = self.store.len();
        let ghost tl = old(self).table_len();
        let ghost lab = labels@;
        // First pass: move each child's slot to its new index and vacate the
        // old one; grandchild ownership is repaired in the second pass.
        let mut j: usize = 0;
        while j < labels.len()
            invariant
                old(self).reloc_pre(n as int, bn as int, lab),
                lab == labels@,
                n < tl,
                1 <= bn <= tl,
                tl + 256 <= usize::MAX,
                tl == old(self).table_len(),
                forall|i: int, jj: int| 0 <= i < jj < lab.len() ==> lab[i] < lab[jj],
                j <= lab.len(),
                self.store.wf(),
                self.table_len() == tl,
                self.vls().len() == tl,
                ob == old(self).bs()[n as int],
                sl == tl,
                forall|x: int|
                    0 <= x < tl ==> #[trigger] self.cs()[x] as int == (if rl_nc(
                        bn as int,
                        lab.take(j as int),
                        x,
                    ) {
                        n + 1
                    } else if rl_oc(ob as int, lab.take(j as int), x) {
                        0
                    } else {
                        old(self).cs()[x] as int
                    }),
                forall|x: int|
                    0 <= x < tl ==> #[trigger] self.bs()[x] as int == (if rl_nc(
                        bn as int,
                        lab.take(j as int),
                        x,
                    ) {
                        old(self).bs()[ob + (x - bn)] as int
                    } else {
                        old(self).bs()[x] as int
                    }),
                forall|x: int|
                    0 <= x < tl ==> #[trigger] self.vls()[x] == (if rl_nc(
                        bn as int,
                        lab.take(j as int),
                        x,
                    ) {
                        old(self).vls()[ob + (x - bn)]
                    } else if rl_oc(ob as int, lab.take(j as int), x) {
                        None::<V>
                    } else {
                        old(self).vls()[x]
                    }),
            decreases lab.len() - j,
        {
            let ghost j0 = j as int;
            let ghost snap = *self;
            let l = labels[j];
            proof {
                assert forall|i1: int, i2: int|
                    0 <= i1 < i2 < lab.len() implies lab[i1] != lab[i2] by {
                    assert(lab[i1] < lab[i2]);
                }
                assert(lab.contains(l));
                assert(old(self).is_child(n as int, l));
                assert(rl_oc(ob as int, lab, ob + l as int)) by {
                    assert((ob + l as int - ob) as u8 == l);
                }
                assert(rl_nc(bn as int, lab, bn + l as int)) by {
                    assert((bn + l as int - bn) as u8 == l);
                }
                Self::lemma_rl_push(bn as int, lab, j0, l);
                Self::lemma_rl_push(ob as int, lab, j0, l);
                assert(old(self).cs()[ob + l as int] == n + 1);
                assert(old(self).cs()[bn + l as int] == 0);
                // the slot being vacated still carries its original data
                assert(!rl_nc(bn as int, lab.take(j0), ob + l as int)) by {
                    if rl_nc(bn as int, lab.take(j0), ob + l as int) {
                        Self::lemma_take_contains(lab, j0, ((ob + l as int) - bn) as u8);
                        assert(rl_nc(bn as int, lab, ob + l as int));
                        assert(old(self).cs()[ob + l as int] == 0);
                    }
                }
                assert(!rl_oc(ob as int, lab.take(j0), ob + l as int));
                assert(!rl_oc(ob as int, lab.take(j0), bn + l as int)) by {
                    if rl_oc(ob as int, lab.take(j0), bn + l as int) {
                        Self::lemma_take_contains(lab, j0, ((bn + l as int) - ob) as u8);
                        assert(rl_oc(ob as int, lab, bn + l as int));
                        assert(old(self).cs()[bn + l as int] == n + 1);
                    }
                }
            }
            let oc = ob + (l as usize);
            let nc = bn + (l as usize);
            let cb = self.store.read_base(oc);
            self.store.write_base(nc, cb);
            self.store.write_check(nc, n + 1);
            let moved_val = vec_set(&mut self.vals, oc, None);
            let _former = vec_set(&mut self.vals, nc, moved_val);
            self.store.write_check(oc, 0);
            j = j + 1;
            proof {
                assert(oc != nc);
                assert(self.cs() == snap.cs().update(nc as int, (n + 1) as usize).update(
                    oc as int,
                    0usize,
                ));
                assert(self.bs() == snap.bs().update(nc as int, cb));
                assert(self.vls() == snap.vls().update(oc as int, None::<V>).update(
                    nc as int,
                    snap.vls()[oc as int],
                ));
                assert(cb == old(self).bs()[oc as int]);
                assert forall|x: int|
                    0 <= x < tl implies #[trigger] self.cs()[x] as int == (if rl_nc(
                    bn as int,
                    lab.take(j as int),
                    x,
                ) {
                    n + 1
                } else if rl_oc(ob as int, lab.take(j as int), x) {
                    0
                } else {
                    old(self).cs()[x] as int
                }) by {
                    if x == nc {
                        assert(rl_nc(bn as int, lab.take(j as int), nc as int));
                    } else if x == oc {
                        assert(rl_oc(ob as int, lab.take(j as int), oc as int)) by {
                            assert(lab.take(j as int)[j0] == l);
                            assert(lab.take(j as int).contains(l));
                            assert((oc as int - ob) as u8 == l);
                        }
                        assert(!rl_nc(bn as int, lab.take(j as int), oc as int)) by {
                            if rl_nc(bn as int, lab.take(j as int), oc as int) {
                                Self::lemma_take_contains(lab, j as int, (oc - bn) as u8);
                                assert(rl_nc(bn as int, lab, oc as int));
                                assert(old(self).cs()[oc as int] == 0);
                            }
                        }
                    } else {
                        assert(self.cs()[x] == snap.cs()[x]);
                    }
                }
                assert forall|x: int|
                    0 <= x < tl implies #[trigger] self.bs()[x] as int == (if rl_nc(
                    bn as int,
                    lab.take(j as int),
                    x,
                ) {
                    old(self).bs()[ob + (x - bn)] as int
                } else {
                    old(self).bs()[x] as int
                }) by {
                    if x == nc {
                        assert(rl_nc(bn as int, lab.take(j as int), nc as int));
                        assert(ob + (x - bn) == oc);
                    } else {
                        assert(self.bs()[x] == snap.bs()[x]);
                    }
                }
                assert forall|x: int|
                    0 <= x < tl implies #[trigger] self.vls()[x] == (if rl_nc(
                    bn as int,
                    lab.take(j as int),
                    x,
                ) {
                    old(self).vls()[ob + (x - bn)]
                } else if rl_oc(ob as int, lab.take(j as int), x) {
                    None::<V>
                } else {
                    old(self).vls()[x]
                }) by {
                    if x == nc {
                        assert(rl_nc(bn as int, lab.take(j as int), nc as int));
                        assert(ob + (x - bn) == oc);
                        assert(self.vls()[nc as int] == snap.vls()[oc as int]);
                        assert(snap.vls()[oc as int] == old(self).vls()[oc as int]) by {
                            assert(!rl_nc(bn as int, lab.take(j0), oc as int));
                            assert(!rl_oc(ob as int, lab.take(j0), oc as int));
                        }
                    } else if x == oc {
                        assert(rl_oc(ob as int, lab.take(j as int), oc as int)) by {
                            assert(lab.take(j as int)[j0] == l);
                            assert(lab.take(j as int).contains(l));
                            assert((oc as int - ob) as u8 == l);
                        }
                        assert(!rl_nc(bn as int, lab.take(j as int), oc as int)) by {
                            if rl_nc(bn as int, lab.take(j as int), oc as int) {
                                Self::lemma_take_contains(lab, j as int, (oc - bn) as u8);
                                assert(old(self).cs()[oc as int] == 0);
                            }
                        }
                    } else {
                        assert(self.vls()[x] == snap.vls()[x]);
                    }
                }
            }
        }
        proof {
            assert(lab.take(lab.len() as int) =~= lab);
        }
        // Second pass: every grandchild's ownership pointer follows its
        // parent to the parent's new index.
        let mut j2: usize = 0;
        while j2 < labels.len()
            invariant
                old(self).reloc_pre(n as int, bn as int, lab),
                lab == labels@,
                n < tl,
                1 <= bn <= tl,
                tl + 256 <= usize::MAX,
                tl == old(self).table_len(),
                j2 <= lab.len(),
                self.store.wf(),
                self.table_len() == tl,
                self.vls().len() == tl,
                ob == old(self).bs()[n as int],
                sl == tl,
                forall|x: int|
                    0 <= x < tl ==> #[trigger] self.bs()[x] as int == (if rl_nc(bn as int, lab, x) {
                        old(self).bs()[ob + (x - bn)] as int
                    } else {
                        old(self).bs()[x] as int
                    }),
                forall|x: int|
                    0 <= x < tl ==> #[trigger] self.vls()[x] == old(self).fin_v(
                        n as int,
                        bn as int,
                        lab,
                        x,
                    ),
                forall|x: int|
                    0 <= x < tl ==> #[trigger] self.cs()[x] as int == (if rl_nc(bn as int, lab, x) {
                        n + 1
                    } else if rl_oc(ob as int, lab, x) {
                        0
                    } else if old(self).cs()[x] != 0 && rl_oc(
                        ob as int,
                        lab.take(j2 as int),
                        old(self).cs()[x] - 1,
                    ) {
                        bn + (old(self).cs()[x] - 1 - ob) + 1
                    } else {
                        old(self).cs()[x] as int
                    }),
            decreases lab.len() - j2,
        {
            let ghost j20 = j2 as int;
            let l = labels[j2];
            proof {
                assert(lab.contains(l));
                assert(old(self).is_child(n as int, l));
            }
            let oc = ob + (l as usize);
            let cb = self.store.read_base(oc);
            proof {
                assert(rl_oc(ob as int, lab, oc as int)) by {
                    assert((oc as int - ob) as u8 == l);
                }
                assert(old(self).cs()[oc as int] == n + 1);
                assert(!rl_nc(bn as int, lab, oc as int)) by {
                    if rl_nc(bn as int, lab, oc as int) {
                        assert(old(self).cs()[oc as int] == 0);
                    }
                }
                assert(self.bs()[oc as int] as int == old(self).bs()[oc as int] as int);
                assert(cb == old(self).bs()[oc as int]);
                assert(!rl_oc(ob as int, lab.take(j2 as int), oc as int)) by {
                    if rl_oc(ob as int, lab.take(j2 as int), oc as int) {
                        let e = (oc as int - ob) as u8;
                        assert(e == l);
                        let i = choose|i: int|
                            0 <= i < lab.take(j2 as int).len() && lab.take(j2 as int)[i] == e;
                        assert(lab[i] == l && lab[j2 as int] == l && i < j2 as int);
                    }
                }
                assert(oc != n) by {
                    if oc == n {
                        assert(old(self).cs()[n as int] == n + 1);
                    }
                }
            }
            let lim: usize = if cb >= sl {
                0
            } else if sl - cb > 256 {
                256
            } else {
                sl - cb
            };
            let mut g2: usize = 0;
            while g2 < lim
                invariant
                    old(self).reloc_pre(n as int, bn as int, lab),
                    lab == labels@,
                    n < tl,
                    1 <= bn <= tl,
                    tl + 256 <= usize::MAX,
                    tl == old(self).table_len(),
                    j2 < lab.len(),
                    l == lab[j2 as int],
                    oc == ob + l as int,
                    self.store.wf(),
                    self.table_len() == tl,
                    self.vls().len() == tl,
                    ob == old(self).bs()[n as int],
                    sl == tl,
                    oc < tl,
                    cb == old(self).bs()[oc as int],
                    lim <= 256,
                    cb + lim <= sl,
                    cb >= sl ==> lim == 0,
                    cb < sl ==> lim == if sl - cb > 256 {
                        256int
                    } else {
                        sl - cb
                    },
                    g2 <= lim,
                    forall|x: int|
                        0 <= x < tl ==> #[trigger] self.bs()[x] as int == (if rl_nc(
                            bn as int,
                            lab,
                            x,
                        ) {
                            old(self).bs()[ob + (x - bn)] as int
                        } else {
                            old(self).bs()[x] as int
                        }),
                    forall|x: int|
                        0 <= x < tl ==> #[trigger] self.vls()[x] == old(self).fin_v(
                            n as int,
                            bn as int,
                            lab,
                            x,
                        ),
                    forall|x: int|
                        0 <= x < tl ==> #[trigger] self.cs()[x] as int == (if rl_nc(
                            bn as int,
                            lab,
                            x,
                        ) {
                            n + 1
                        } else if rl_oc(ob as int, lab, x) {
                            0
                        } else if old(self).cs()[x] != 0 && (rl_oc(
                            ob as int,
                            lab.take(j2 as int),
                            old(self).cs()[x] - 1,
                        ) || (old(self).cs()[x] - 1 == oc && cb <= x < cb + g2)) {
                            bn + (old(self).cs()[x] - 1 - ob) + 1
                        } else {
                            old(self).cs()[x] as int
                        }),
                decreases lim - g2,
            {
                let g = cb + g2;
                let cg = self.store.read_check(g);
                proof {
                    // the slot reads its original owner: no earlier write can
                    // counterfeit or hide ownership by this vacated child
                    assert(cg as int == oc + 1 <==> old(self).cs()[g as int] as int == oc + 1) by {
                        assert(cg == self.cs()[g as int]);
                        assert(0 <= g < tl);
                        assert(old(self).cs()[oc as int] == n + 1);
                        assert(old(self).cs()[n as int] != n + 1);
                        assert(!(cb <= g < cb + g2));
                        if old(self).cs()[g as int] as int == oc + 1 {
                            assert(!rl_nc(bn as int, lab, g as int)) by {
                                if rl_nc(bn as int, lab, g as int) {
                                    assert(old(self).cs()[g as int] == 0);
                                }
                            }
                            assert(!rl_oc(ob as int, lab, g as int)) by {
                                if rl_oc(ob as int, lab, g as int) {
                                    assert(old(self).cs()[g as int] == n + 1);
                                    assert(oc == n);
                                }
                            }
                            assert(!rl_oc(ob as int, lab.take(j2 as int), oc as int));
                            assert(cg as int == old(self).cs()[g as int] as int);
                        }
                        if cg as int == oc + 1 {
                            if rl_nc(bn as int, lab, g as int) {
                                assert(cg as int == n + 1);
                                assert(oc == n);
                                assert(false);
                            } else if rl_oc(ob as int, lab, g as int) {
                                assert(cg as int == 0);
                                assert(false);
                            } else if old(self).cs()[g as int] != 0 && (rl_oc(
                                ob as int,
                                lab.take(j2 as int),
                                old(self).cs()[g as int] - 1,
                            ) || (old(self).cs()[g as int] - 1 == oc && cb <= g < cb + g2)) {
                                let ocg = old(self).cs()[g as int] - 1;
                                assert(rl_oc(ob as int, lab.take(j2 as int), ocg));
                                assert(rl_oc(ob as int, lab, ocg)) by {
                                    Self::lemma_take_contains(lab, j2 as int, (ocg - ob) as u8);
                                }
                                assert(old(self).cs()[ocg] == n + 1);
                                assert(cg as int == bn + (ocg - ob) + 1);
                                assert(oc as int == bn + (ocg - ob));
                                assert(rl_nc(bn as int, lab, oc as int)) by {
                                    assert(lab.contains((ocg - ob) as u8));
                                    assert((oc as int - bn) as u8 == (ocg - ob) as u8);
                                }
                                assert(old(self).cs()[oc as int] == 0);
                                assert(false);
                            } else {
                                assert(old(self).cs()[g as int] as int == oc + 1);
                            }
                        }
                    }
                }
                let ghost at_entry = *self;
                if cg == oc + 1 {
                    let nc = bn + (l as usize);
                    proof {
                        assert(rl_nc(bn as int, lab, nc as int)) by {
                            assert((nc as int - bn) as u8 == l);
                        }
                        assert(nc < tl);
                    }
                    self.store.write_check(g, nc + 1);
                }
                g2 = g2 + 1;
                proof {
                    let g2n = g2 as int;
                    assert(self.bs() == at_entry.bs());
                    assert(self.vls() == at_entry.vls());
                    assert forall|x: int|
                        0 <= x < tl implies #[trigger] self.bs()[x] as int == (if rl_nc(
                        bn as int,
                        lab,
                        x,
                    ) {
                        old(self).bs()[ob + (x - bn)] as int
                    } else {
                        old(self).bs()[x] as int
                    }) by {
                        assert(self.bs()[x] == at_entry.bs()[x]);
                    }
                    assert forall|x: int|
                        0 <= x < tl implies #[trigger] self.vls()[x] == old(self).fin_v(
                        n as int,
                        bn as int,
                        lab,
                        x,
                    ) by {
                        assert(self.vls()[x] == at_entry.vls()[x]);
                    }
                    assert forall|x: int|
                        0 <= x < tl implies #[trigger] self.cs()[x] as int == (if rl_nc(
                        bn as int,
                        lab,
                        x,
                    ) {
                        n + 1
                    } else if rl_oc(ob as int, lab, x) {
                        0
                    } else if old(self).cs()[x] != 0 && (rl_oc(
                        ob as int,
                        lab.take(j2 as int),
                        old(self).cs()[x] - 1,
                    ) || (old(self).cs()[x] - 1 == oc && cb <= x < cb + g2n)) {
                        bn + (old(self).cs()[x] - 1 - ob) + 1
                    } else {
                        old(self).cs()[x] as int
                    }) by {
                        if x == g {
                            if old(self).cs()[g as int] as int == oc + 1 {
                                assert(self.cs()[g as int] as int == bn + (oc as int - ob) + 1);
                                assert(!rl_nc(bn as int, lab, g as int)) by {
                                    if rl_nc(bn as int, lab, g as int) {
                                        assert(old(self).cs()[g as int] == 0);
                                    }
                                }
                                assert(!rl_oc(ob as int, lab, g as int)) by {
                                    if rl_oc(ob as int, lab, g as int) {
                                        assert(old(self).cs()[g as int] == n + 1);
                                        assert(oc == n);
                                    }
                                }
                            } else {
                                assert(self.cs()[g as int] == at_entry.cs()[g as int]);
                            }
                        } else {
                            assert(self.cs()[x] == at_entry.cs()[x]);
                        }
                    }
                }
            }
            j2 = j2 + 1;
            proof {
                assert forall|w: int|
                    rl_oc(ob as int, lab.take(j2 as int), w) <==> (rl_oc(
                        ob as int,
                        lab.take(j20),
                        w,
                    ) || w == oc as int) by {
                    assert(lab.take(j2 as int) =~= lab.take(j20).push(l));
                    let pj = lab.take(j20);
                    if rl_oc(ob as int, lab.take(j2 as int), w) {
                        let e = (w - ob) as u8;
                        assert(pj.push(l).contains(e));
                        if e == l {
                            assert(w == oc as int);
                        } else {
                            let i = choose|i: int| 0 <= i < pj.push(l).len() && pj.push(l)[i] == e;
                            assert(pj[i] == e);
                            assert(pj.contains(e));
                        }
                    }
                    if rl_oc(ob as int, pj, w) {
                        let e = (w - ob) as u8;
                        let i = choose|i: int| 0 <= i < pj.len() && pj[i] == e;
                        assert(pj.push(l)[i] == e);
                        assert(lab.take(j2 as int).contains(e));
                    }
                    if w == oc as int {
                        assert(lab.take(j2 as int).last() == l);
                        assert(lab.take(j2 as int).contains(l));
                        assert((w - ob) as u8 == l);
                    }
                }
                assert forall|x: int|
                    0 <= x < tl && old(self).cs()[x] != 0 && old(self).cs()[x] - 1 == oc as int
                        implies cb <= x < cb + lim by {
                    assert(old(self).bs()[oc as int] <= x < old(self).bs()[oc as int] + 256);
                }
            }
        }
        proof {
            assert(lab.take(lab.len() as int) =~= lab);
        }
        // Finally the victim takes the new base.
        let ghost le = *self;
        self.store.write_base(n, bn);
        proof {
            let pre = old(self);
            assert(pre.reloc_post(&*self, n as int, bn as int, lab)) by {
                assert(!rl_nc(bn as int, lab, n as int));
                assert(self.cs() == le.cs());
                assert(self.vls() == le.vls());
                assert(self.bs() == le.bs().update(n as int, bn));
                assert forall|x: int|
                    0 <= x < tl implies #[trigger] self.cs()[x] as int == pre.fin_c(
                    n as int,
                    bn as int,
                    lab,
                    x,
                ) by {
                    assert(le.cs()[x] as int == (if rl_nc(bn as int, lab, x) {
                        n + 1
                    } else if rl_oc(ob as int, lab, x) {
                        0
                    } else if pre.cs()[x] != 0 && rl_oc(ob as int, lab, pre.cs()[x] - 1) {
                        bn + (pre.cs()[x] - 1 - ob) + 1
                    } else {
                        pre.cs()[x] as int
                    }));
                }
                assert forall|x: int|
                    0 <= x < tl implies #[trigger] self.bs()[x] as int == pre.fin_b(
                    n as int,
                    bn as int,
                    lab,
                    x,
                ) by {
                    if x == n {
                        assert(self.bs()[n as int] as int == bn);
                    } else {
                        assert(self.bs()[x] == le.bs()[x]);
                        assert(le.bs()[x] as int == (if rl_nc(bn as int, lab, x) {
                            pre.bs()[ob + (x - bn)] as int
                        } else {
                            pre.bs()[x] as int
                        }));
                    }
                }
                assert forall|x: int|
                    0 <= x < tl implies #[trigger] self.vls()[x] == pre.fin_v(
                    n as int,
                    bn as int,
                    lab,
                    x,
                ) by {
                    assert(self.vls()[x] == le.vls()[x]);
                }
            }
            Self::lemma_reloc_keeps(pre, &*self, n as int, bn as int, lab);
            let tli = tl;
            let obi = ob as int;
            assert forall|x: int|
                0 <= x < tli && #[trigger] pre.cs()[x] == n + 1 implies self.cs()[x] == 0 by {
                assert(rl_oc(obi, lab, x));
                assert(!rl_nc(bn as int, lab, x));
            }
            assert forall|x: int|
                0 <= x < tli && (x == 0 || pre.cs()[x] != 0) implies 0 <= #[trigger] pre.moved_to(
                n as int,
                bn as int,
                x,
            ) < tli by {
                if pre.cs()[x] == n + 1 {
                    assert(rl_oc(obi, lab, x));
                    let y = bn + (x - obi);
                    assert(rl_nc(bn as int, lab, y)) by {
                        assert(lab.contains((x - obi) as u8));
                        assert((y - bn) as u8 == (x - obi) as u8);
                    }
                }
            }
            assert forall|x: int|
                0 < x < tli && pre.cs()[x] != 0 implies self.cs()[#[trigger] pre.moved_to(
                n as int,
                bn as int,
                x,
            )] != 0 by {
                if pre.cs()[x] == n + 1 {
                    assert(rl_oc(obi, lab, x));
                    let y = bn + (x - obi);
                    assert(rl_nc(bn as int, lab, y)) by {
                        assert(lab.contains((x - obi) as u8));
                        assert((y - bn) as u8 == (x - obi) as u8);
                    }
                    assert(self.cs()[y] as int == n + 1);
                } else {
                    assert(pre.moved_to(n as int, bn as int, x) == x);
                    assert(self.cs()[x] as int == pre.fin_c(n as int, bn as int, lab, x));
                    if rl_nc(bn as int, lab, x) {
                        assert(pre.cs()[x] == 0);
                    }
                    if rl_oc(obi, lab, x) {
                        assert(pre.cs()[x] == n + 1);
                    }
                    if pre.cs()[x] != 0 && rl_oc(obi, lab, pre.cs()[x] - 1) {
                        let ocx = pre.cs()[x] - 1;
                        let ncx = bn + (ocx - obi);
                        assert(rl_nc(bn as int, lab, ncx)) by {
                            assert(lab.contains((ocx - obi) as u8));
                            assert((ncx - bn) as u8 == (ocx - obi) as u8);
                        }
                        assert(0 < ncx);
                    }
                }
            }
            assert forall|x: int|
                0 <= x < tli && (x == 0 || pre.cs()[x] != 0) && x != n implies self.bs()[
                #[trigger] pre.moved_to(n as int, bn as int, x)] == pre.bs()[x] by {
                if pre.cs()[x] == n + 1 {
                    assert(rl_oc(obi, lab, x));
                    let y = bn + (x - obi);
                    assert(rl_nc(bn as int, lab, y)) by {
                        assert(lab.contains((x - obi) as u8));
                        assert((y - bn) as u8 == (x - obi) as u8);
                    }
                    assert(self.bs()[y] as int == pre.bs()[obi + (y - bn)] as int);
                    assert(obi + (y - bn) == x);
                } else {
                    if rl_nc(bn as int, lab, x) {
                        assert(pre.cs()[x] == 0 && 0 < x);
                    }
                }
            }
            assert forall|l2: u8|
                !lab.contains(l2) && bn + l2 < tli && pre.cs()[bn + l2 as int] == 0 implies
                self.cs()[bn + l2 as int] == 0 by {
                let x = bn + l2 as int;
                assert(!rl_nc(bn as int, lab, x)) by {
                    if rl_nc(bn as int, lab, x) {
                        assert((x - bn) as u8 == l2);
                    }
                }
                if rl_oc(obi, lab, x) {
                    assert(pre.cs()[x] == n + 1);
                }
            }
        }
    }
}

} // verus!
