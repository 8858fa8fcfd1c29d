//! A map kept as two parallel vectors, sorted by key.
//!
//! Lookups are binary searches, and a walk by index visits the keys in
//! ascending order, so whatever is computed from a walk depends on the
//! contents of the map alone.
use vstd::prelude::*;

verus! {

/// How one key stands to another in the order of a map.
#[derive(Debug, Clone, Copy, PartialEq, Eq, Structural)]
pub enum Rank {
    Before,
    Same,
    After,
}

/// A type that can be looked up in an [`OrdMap`]: every key has an identity,
/// and identities stand in a strict total order.
pub trait MapKey {
    /// What a map stores for a key of this type.
    type Stored;

    /// The identity of a key: two keys with the same identity are one key.
    type Id;

    spec fn id(&self) -> Self::Id;

    spec fn stored_id(stored: &Self::Stored) -> Self::Id;

    spec fn before(a: Self::Id, b: Self::Id) -> bool;

    proof fn before_irreflexive(a: Self::Id)
        ensures
            !Self::before(a, a),
    ;

    proof fn before_transitive(a: Self::Id, b: Self::Id, c: Self::Id)
        requires
            Self::before(a, b),
            Self::before(b, c),
        ensures
            Self::before(a, c),
    ;

    proof fn before_total(a: Self::Id, b: Self::Id)
        ensures
            Self::before(a, b) || a == b || Self::before(b, a),
    ;

    /// The key that a stored key stands for.
    fn borrowed(stored: &Self::Stored) -> (key: &Self)
        ensures
            key.id() == Self::stored_id(stored),
    ;

    /// Where this key stands to `other`.
    fn rank(&self, other: &Self) -> (rank: Rank)
        ensures
            rank == Rank::Before <==> Self::before(self.id(), other.id()),
            rank == Rank::Same <==> self.id() == other.id(),
            rank == Rank::After <==> Self::before(other.id(), self.id()),
    ;
}

/// The identities of `keys`, in place.
pub open spec fn key_ids<K: MapKey + ?Sized>(keys: Seq<K::Stored>) -> Seq<K::Id> {
    Seq::new(keys.len(), |i: int| K::stored_id(&keys[i]))
}

/// `ids` is strictly ascending.
pub open spec fn ascending<K: MapKey + ?Sized>(ids: Seq<K::Id>) -> bool {
    forall|i: int, j: int| 0 <= i < j < ids.len() ==> K::before(#[trigger] ids[i], #[trigger] ids[j])
}

/// The identities of a finite set in ascending order.
pub open spec fn sorted_ids<K: MapKey + ?Sized>(ids: Set<K::Id>) -> Seq<K::Id> {
    choose|s: Seq<K::Id>| ascending::<K>(s) && #[trigger] s.to_set() == ids
}

/// A set has one ascending sequence.
pub proof fn lemma_ascending_unique<K: MapKey + ?Sized>(s: Seq<K::Id>, t: Seq<K::Id>)
    requires
        ascending::<K>(s),
        ascending::<K>(t),
        s.to_set() == t.to_set(),
    ensures
        s == t,
    decreases s.len(),
{
    if s.len() == 0 {
        if t.len() > 0 {
            assert(t.to_set().contains(t[0]));
            assert(s.contains(t[0]));
        }
        assert(s =~= t);
    } else {
        assert(s.to_set().contains(s[0]));
        assert(t.contains(s[0]));
        assert(t.to_set().contains(t[0]));
        assert(s.contains(t[0]));
        let i = choose|i: int| 0 <= i < t.len() && t[i] == s[0];
        let j = choose|j: int| 0 <= j < s.len() && s[j] == t[0];
        if i > 0 {
            K::before_irreflexive(s[0]);
            if j > 0 {
                K::before_transitive(t[0], t[i], s[j]);
                K::before_irreflexive(t[0]);
            }
            assert(false);
        }
        let s1 = s.drop_first();
        let t1 = t.drop_first();
        assert forall|x: K::Id| s1.to_set().contains(x) implies t1.to_set().contains(x) by {
            let a = choose|a: int| 0 <= a < s1.len() && s1[a] == x;
            assert(s[a + 1] == x);
            assert(s.to_set().contains(x));
            let b = choose|b: int| 0 <= b < t.len() && t[b] == x;
            K::before_irreflexive(x);
            assert(K::before(s[0], s[a + 1]));
            assert(t1[b - 1] == x);
        }
        assert forall|x: K::Id| t1.to_set().contains(x) implies s1.to_set().contains(x) by {
            let a = choose|a: int| 0 <= a < t1.len() && t1[a] == x;
            assert(t[a + 1] == x);
            assert(t.to_set().contains(x));
            let b = choose|b: int| 0 <= b < s.len() && s[b] == x;
            K::before_irreflexive(x);
            assert(K::before(t[0], t[a + 1]));
            assert(s1[b - 1] == x);
        }
        assert(s1.to_set() =~= t1.to_set());
        assert forall|a: int, b: int| 0 <= a < b < s1.len() implies K::before(#[trigger] s1[a], #[trigger] s1[b]) by {
            assert(K::before(s[a + 1], s[b + 1]));
        }
        assert forall|a: int, b: int| 0 <= a < b < t1.len() implies K::before(#[trigger] t1[a], #[trigger] t1[b]) by {
            assert(K::before(t[a + 1], t[b + 1]));
        }
        lemma_ascending_unique::<K>(s1, t1);
        assert(s =~= seq![s[0]] + s1);
        assert(t =~= seq![t[0]] + t1);
    }
}

/// An ascending sequence with one more identity.
proof fn lemma_insert_ascending<K: MapKey + ?Sized>(s: Seq<K::Id>, x: K::Id) -> (t: Seq<K::Id>)
    requires
        ascending::<K>(s),
        !s.contains(x),
    ensures
        ascending::<K>(t),
        t.to_set() == s.to_set().insert(x),
        s.len() > 0 ==> t[0] == s[0] || t[0] == x,
        s.len() == 0 ==> t[0] == x,
        t.len() > 0,
    decreases s.len(),
{
    if s.len() == 0 {
        let t = seq![x];
        assert(t[0] == x);
        assert(t.to_set() =~= s.to_set().insert(x));
        t
    } else if K::before(x, s[0]) {
        let t = seq![x] + s;
        assert forall|i: int, j: int| 0 <= i < j < t.len() implies K::before(#[trigger] t[i], #[trigger] t[j]) by {
            if i == 0 {
                if j > 1 {
                    assert(K::before(s[0], s[j - 1]));
                    K::before_transitive(x, s[0], s[j - 1]);
                }
            } else {
                assert(K::before(s[i - 1], s[j - 1]));
            }
        }
        assert forall|y: K::Id| t.to_set().contains(y) <==> s.to_set().insert(x).contains(y) by {
            assert(t[0] == x);
            if s.contains(y) {
                let i = choose|i: int| 0 <= i < s.len() && s[i] == y;
                assert(t[i + 1] == y);
            }
        }
        assert(t.to_set() =~= s.to_set().insert(x));
        t
    } else {
        let s1 = s.drop_first();
        assert forall|i: int, j: int| 0 <= i < j < s1.len() implies K::before(#[trigger] s1[i], #[trigger] s1[j]) by {
            assert(K::before(s[i + 1], s[j + 1]));
        }
        if s1.contains(x) {
            let i = choose|i: int| 0 <= i < s1.len() && s1[i] == x;
            assert(s[i + 1] == x);
        }
        let t1 = lemma_insert_ascending::<K>(s1, x);
        let t = seq![s[0]] + t1;
        K::before_total(x, s[0]);
        assert(s[0] != x) by {
            assert(s.contains(s[0]));
        }
        assert(K::before(s[0], t1[0])) by {
            if t1[0] != x {
                assert(K::before(s[0], s[1]));
            }
        }
        assert forall|i: int, j: int| 0 <= i < j < t.len() implies K::before(#[trigger] t[i], #[trigger] t[j]) by {
            if i == 0 {
                if j > 1 {
                    assert(K::before(t1[0], t1[j - 1]));
                    K::before_transitive(s[0], t1[0], t1[j - 1]);
                }
            } else {
                assert(K::before(t1[i - 1], t1[j - 1]));
            }
        }
        assert forall|y: K::Id| t.to_set().contains(y) <==> s.to_set().insert(x).contains(y) by {
            assert(t1.to_set().contains(y) <==> s1.to_set().insert(x).contains(y));
            assert(t[0] == s[0]);
            if t1.contains(y) {
                let i = choose|i: int| 0 <= i < t1.len() && t1[i] == y;
                assert(t[i + 1] == y);
            }
            if t.contains(y) {
                let i = choose|i: int| 0 <= i < t.len() && t[i] == y;
                if i > 0 {
                    assert(t1[i - 1] == y);
                } else {
                    assert(s.contains(s[0]));
                }
            }
            if s1.contains(y) {
                let i = choose|i: int| 0 <= i < s1.len() && s1[i] == y;
                assert(s[i + 1] == y);
            }
            if s.contains(y) {
                let i = choose|i: int| 0 <= i < s.len() && s[i] == y;
                if i > 0 {
                    assert(s1[i - 1] == y);
                }
            }
        }
        assert(t.to_set() =~= s.to_set().insert(x));
        t
    }
}

proof fn lemma_has_ascending<K: MapKey + ?Sized>(ids: Set<K::Id>) -> (s: Seq<K::Id>)
    requires
        ids.finite(),
    ensures
        ascending::<K>(s),
        s.to_set() == ids,
    decreases ids.len(),
{
    if ids.len() == 0 {
        let s = Seq::<K::Id>::empty();
        assert(s.to_set() =~= ids);
        s
    } else {
        let x = ids.choose();
        let s = lemma_has_ascending::<K>(ids.remove(x));
        assert(!s.to_set().contains(x));
        let t = lemma_insert_ascending::<K>(s, x);
        assert(t.to_set() =~= ids);
        t
    }
}

/// A finite set has an ascending sequence.
pub proof fn lemma_sorted_ids<K: MapKey + ?Sized>(ids: Set<K::Id>)
    requires
        ids.finite(),
    ensures
        ascending::<K>(sorted_ids::<K>(ids)),
        sorted_ids::<K>(ids).to_set() == ids,
{
    let s = lemma_has_ascending::<K>(ids);
    assert(ascending::<K>(s) && s.to_set() == ids);
}

/// What the first `i + 1` places of a sequence hold.
pub proof fn lemma_take_one_more<T>(s: Seq<T>, i: int)
    requires
        0 <= i < s.len(),
    ensures
        s.take(i + 1) == s.take(i).push(s[i]),
        forall|x: T| #[trigger] s.take(i + 1).contains(x) <==> s.take(i).contains(x) || x == s[i],
{
    let more = s.take(i + 1);
    let done = s.take(i);
    assert(more =~= done.push(s[i]));
    assert forall|x: T| #[trigger] more.contains(x) <==> done.contains(x) || x == s[i] by {
        assert(more[i] == s[i]);
        if done.contains(x) {
            let j = choose|j: int| 0 <= j < done.len() && done[j] == x;
            assert(more[j] == x);
        }
        if more.contains(x) && x != s[i] {
            let j = choose|j: int| 0 <= j < more.len() && more[j] == x;
            assert(done[j] == x);
        }
    }
}

/// The map that sends `ids[i]` to `values[i]`.
pub open spec fn paired<I, V>(ids: Seq<I>, values: Seq<V>) -> Map<I, V> {
    Map::new(|id: I| ids.contains(id), |id: I| values[ids.index_of(id)])
}

#[derive(Debug)]
pub struct OrdMap<K: MapKey + ?Sized, V> {
    keys: Vec<K::Stored>,
    values: Vec<V>,
}

impl<K: MapKey + ?Sized, V> View for OrdMap<K, V> {
    type V = Map<K::Id, V>;

    closed spec fn view(&self) -> Map<K::Id, V> {
        paired(key_ids::<K>(self.keys@), self.values@)
    }
}

impl<K: MapKey + ?Sized, V> OrdMap<K, V> {
    #[verifier::type_invariant]
    spec fn inv(self) -> bool {
        &&& self.keys@.len() == self.values@.len()
        &&& ascending::<K>(key_ids::<K>(self.keys@))
    }

    /// The identities of the keys, in ascending order.
    pub closed spec fn order(&self) -> Seq<K::Id> {
        key_ids::<K>(self.keys@)
    }

    proof fn lemma_view(&self)
        requires
            self.inv(),
        ensures
            self.order().no_duplicates(),
            self@.dom() =~= self.order().to_set(),
            self@.dom().finite(),
            self@.len() == self.order().len(),
            forall|i: int| 0 <= i < self.order().len() ==> self@.contains_key(#[trigger] self.order()[i])
                && self@[self.order()[i]] == self.values@[i],
    {
        let ids = self.order();
        assert forall|i: int, j: int| 0 <= i < j < ids.len() implies ids[i] != ids[j] by {
            K::before_irreflexive(ids[i]);
            assert(K::before(ids[i], ids[j]));
        }
        assert(ids.no_duplicates());
        ids.unique_seq_to_set();
        assert(self@.dom() =~= ids.to_set());
        assert forall|i: int| 0 <= i < ids.len() implies self@.contains_key(#[trigger] ids[i])
            && self@[ids[i]] == self.values@[i] by {
            assert(ids.contains(ids[i]));
            assert(ids.index_of(ids[i]) == i);
        }
    }

    pub fn new() -> (m: Self)
        ensures
            m@ == Map::<K::Id, V>::empty(),
            m.order() == Seq::<K::Id>::empty(),
    {
        let m = OrdMap { keys: Vec::new(), values: Vec::new() };
        proof {
            assert(key_ids::<K>(m.keys@) =~= Seq::<K::Id>::empty());
            assert(m@ =~= Map::<K::Id, V>::empty());
        }
        m
    }

    /// The number of keys. The walk order is ascending, without repetition,
    /// and made of exactly the keys of the map, so it depends on them alone.
    pub fn len(&self) -> (n: usize)
        ensures
            n == self@.len(),
            n == self.order().len(),
            self@.dom().finite(),
            ascending::<K>(self.order()),
            self.order().no_duplicates(),
            self.order().to_set() == self@.dom(),
            self.order() == sorted_ids::<K>(self@.dom()),
    {
        proof {
            use_type_invariant(self);
            self.lemma_view();
            lemma_ascending_unique::<K>(self.order(), sorted_ids::<K>(self@.dom()));
        }
        self.keys.len()
    }

    pub fn is_empty(&self) -> (b: bool)
        ensures
            b == (self@.len() == 0),
            b <==> self@ =~= Map::<K::Id, V>::empty(),
    {
        proof {
            use_type_invariant(self);
            self.lemma_view();
            if self.keys@.len() > 0 {
                assert(self@.contains_key(self.order()[0]));
            } else {
                assert(self.order() =~= Seq::<K::Id>::empty());
                assert(self@ =~= Map::<K::Id, V>::empty());
            }
        }
        self.keys.len() == 0
    }

    /// The place of `key`, or the place where it would be inserted.
    fn find(&self, key: &K) -> (r: (bool, usize))
        ensures
            r.1 <= self.order().len(),
            r.0 ==> r.1 < self.order().len() && self.order()[r.1 as int] == key.id(),
            r.0 == self.order().contains(key.id()),
            forall|i: int| 0 <= i < r.1 ==> K::before(#[trigger] self.order()[i], key.id()),
            !r.0 ==> forall|i: int|
                r.1 <= i < self.order().len() ==> K::before(key.id(), #[trigger] self.order()[i]),
    {
        proof {
            use_type_invariant(self);
        }
        let ghost ids = self.order();
        let mut lo: usize = 0;
        let mut hi: usize = self.keys.len();
        while lo < hi
            invariant
                ids == self.order(),
                ascending::<K>(ids),
                lo <= hi <= self.keys@.len(),
                forall|i: int| 0 <= i < lo ==> K::before(#[trigger] ids[i], key.id()),
                forall|i: int| hi <= i < ids.len() ==> K::before(key.id(), #[trigger] ids[i]),
            decreases hi - lo,
        {
            let mid: usize = lo + (hi - lo) / 2;
            let rank = K::borrowed(&self.keys[mid]).rank(key);
            assert(ids[mid as int] == K::stored_id(&self.keys@[mid as int]));
            match rank {
                Rank::Same => {
                    return (true, mid);
                },
                Rank::Before => {
                    proof {
                        assert forall|i: int| 0 <= i < mid + 1 implies K::before(#[trigger] ids[i], key.id()) by {
                            if i < mid {
                                K::before_transitive(ids[i], ids[mid as int], key.id());
                            }
                        }
                    }
                    lo = mid + 1;
                },
                Rank::After => {
                    proof {
                        assert forall|i: int| mid <= i < ids.len() implies K::before(key.id(), #[trigger] ids[i]) by {
                            if i > mid {
                                K::before_transitive(key.id(), ids[mid as int], ids[i]);
                            }
                        }
                    }
                    hi = mid;
                },
            }
        }
        proof {
            if ids.contains(key.id()) {
                let i = choose|i: int| 0 <= i < ids.len() && ids[i] == key.id();
                K::before_irreflexive(ids[i]);
                assert(false);
            }
        }
        (false, lo)
    }

    pub fn contains_key(&self, key: &K) -> (b: bool)
        ensures
            b == self@.contains_key(key.id()),
    {
        self.find(key).0
    }

    pub fn get(&self, key: &K) -> (r: Option<&V>)
        ensures
            match r {
                Some(v) => self@.contains_key(key.id()) && *v == self@[key.id()],
                None => !self@.contains_key(key.id()),
            },
    {
        let (found, at) = self.find(key);
        proof {
            use_type_invariant(self);
            self.lemma_view();
        }
        if found {
            Some(&self.values[at])
        } else {
            None
        }
    }

    pub fn get_mut(&mut self, key: &K) -> (r: Option<&mut V>)
        ensures
            match r {
                Some(v) => {
                    &&& old(self)@.contains_key(key.id())
                    &&& *v == old(self)@[key.id()]
                    &&& final(self)@ == old(self)@.insert(key.id(), *final(v))
                },
                None => !old(self)@.contains_key(key.id()) && final(self)@ == old(self)@,
            },
            final(self).order() == old(self).order(),
    {
        let (found, at) = self.find(key);
        proof {
            use_type_invariant(&*self);
            self.lemma_view();
        }
        if found {
            let ghost ids = self.order();
            let ghost before = self.values@;
            let ghost view = self@;
            let v = &mut self.values[at];
            proof {
                assert(paired(ids, before.update(at as int, *final(v))) =~= view.insert(key.id(), *final(v)));
            }
            Some(v)
        } else {
            None
        }
    }

    pub fn insert(&mut self, key: K::Stored, value: V)
        ensures
            final(self)@ == old(self)@.insert(K::stored_id(&key), value),
    {
        let (found, at) = self.find(K::borrowed(&key));
        proof {
            use_type_invariant(&*self);
            self.lemma_view();
        }
        let ghost ids = self.order();
        let ghost view = self@;
        let ghost id = K::stored_id(&key);
        if found {
            self.values[at] = value;
            proof {
                assert(self@ =~= view.insert(id, value));
            }
        } else {
            let ghost new_ids = ids.insert(at as int, id);
            proof {
                assert(key_ids::<K>(self.keys@.insert(at as int, key)) =~= new_ids);
                assert forall|i: int, j: int| 0 <= i < j < new_ids.len() implies K::before(#[trigger] new_ids[i], #[trigger] new_ids[j]) by {
                    let a = if i < at { i } else { i - 1 };
                    let b = if j < at { j } else { j - 1 };
                    if i != at && j != at {
                        assert(K::before(ids[a], ids[b]));
                    } else if i == at {
                        assert(K::before(id, ids[b]));
                    } else {
                        assert(K::before(ids[a], id));
                    }
                }
            }
            let mut taken = OrdMap::new();
            core::mem::swap(self, &mut taken);
            let OrdMap { mut keys, mut values } = taken;
            keys.insert(at, key);
            values.insert(at, value);
            *self = OrdMap { keys, values };
            proof {
                self.lemma_view();
                assert(self.order() == new_ids);
                assert forall|k: K::Id| self@.contains_key(k) == view.insert(id, value).contains_key(k) by {
                    if ids.contains(k) {
                        let i = ids.index_of(k);
                        assert(new_ids[if i < at { i } else { i + 1 }] == k);
                    }
                    assert(new_ids[at as int] == id);
                    if new_ids.contains(k) && k != id {
                        let i = new_ids.index_of(k);
                        assert(ids[if i < at { i } else { i - 1 }] == k);
                    }
                }
                assert forall|k: K::Id| view.insert(id, value).contains_key(k) implies self@[k] == view.insert(id, value)[k] by {
                    assert(new_ids[at as int] == id);
                    if k != id {
                        let i = ids.index_of(k);
                        let j = if i < at { i } else { i + 1 };
                        assert(new_ids[j] == k);
                        assert(self@[new_ids[j]] == self.values@[j]);
                    } else {
                        assert(self@[new_ids[at as int]] == self.values@[at as int]);
                    }
                }
                assert(self@ =~= view.insert(id, value));
            }
        }
    }

    pub fn remove(&mut self, key: &K) -> (r: Option<V>)
        ensures
            final(self)@ == old(self)@.remove(key.id()),
            match r {
                Some(v) => old(self)@.contains_key(key.id()) && v == old(self)@[key.id()],
                None => !old(self)@.contains_key(key.id()),
            },
    {
        let (found, at) = self.find(key);
        proof {
            use_type_invariant(&*self);
            self.lemma_view();
        }
        let ghost ids = self.order();
        let ghost view = self@;
        let ghost id = key.id();
        if found {
            let ghost new_ids = ids.remove(at as int);
            proof {
                assert(key_ids::<K>(self.keys@.remove(at as int)) =~= new_ids);
                assert forall|i: int, j: int| 0 <= i < j < new_ids.len() implies K::before(#[trigger] new_ids[i], #[trigger] new_ids[j]) by {
                    let a = if i < at { i } else { i + 1 };
                    let b = if j < at { j } else { j + 1 };
                    assert(K::before(ids[a], ids[b]));
                }
            }
            let mut taken = OrdMap::new();
            core::mem::swap(self, &mut taken);
            let OrdMap { mut keys, mut values } = taken;
            keys.remove(at);
            let v = values.remove(at);
            *self = OrdMap { keys, values };
            proof {
                self.lemma_view();
                assert(self.order() == new_ids);
                assert forall|k: K::Id| self@.contains_key(k) == view.remove(id).contains_key(k) by {
                    if ids.contains(k) && k != id {
                        let i = ids.index_of(k);
                        assert(new_ids[if i < at { i } else { i - 1 }] == k);
                    }
                    if new_ids.contains(k) {
                        let i = new_ids.index_of(k);
                        assert(ids[if i < at { i } else { i + 1 }] == k);
                    }
                }
                assert forall|k: K::Id| view.remove(id).contains_key(k) implies self@[k] == view.remove(id)[k] by {
                    let i = ids.index_of(k);
                    let j = if i < at { i } else { i - 1 };
                    assert(new_ids[j] == k);
                    assert(self@[new_ids[j]] == self.values@[j]);
                }
                assert(self@ =~= view.remove(id));
            }
            Some(v)
        } else {
            proof {
                assert(view =~= view.remove(id));
            }
            None
        }
    }

    /// The `i`-th key in ascending order.
    pub fn key_at(&self, i: usize) -> (key: &K)
        requires
            i < self.order().len(),
        ensures
            key.id() == self.order()[i as int],
            self@.contains_key(key.id()),
    {
        proof {
            use_type_invariant(self);
            self.lemma_view();
        }
        K::borrowed(&self.keys[i])
    }

    /// The value of the `i`-th key in ascending order.
    pub fn value_at(&self, i: usize) -> (value: &V)
        requires
            i < self.order().len(),
        ensures
            self@.contains_key(self.order()[i as int]),
            *value == self@[self.order()[i as int]],
    {
        proof {
            use_type_invariant(self);
            self.lemma_view();
        }
        &self.values[i]
    }
}

}
