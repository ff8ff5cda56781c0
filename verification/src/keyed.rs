use std::collections::HashMap;
use vstd::prelude::*;
use vstd::std_specs::hash::obeys_key_model;

use crate::forest::class_value;
use crate::forest::combines;
use crate::forest::forest_wf;
use crate::forest::lemma_merged_repr;
use crate::forest::merge_post;
use crate::forest::merged;
use crate::forest::repr;
use crate::forest::try_merge_post;
use crate::forest::Classes;
use crate::forest::DisjointVec;
use crate::forest::IntoClasses;
use crate::forest::Item;

verus! {

/// A keyed disjoint-class map: a [`DisjointVec`] forest plus an index from
/// keys to the forest slot created for each key. Inserting a key binds it to
/// its slot once and for all; merges demote slots inside the forest but never
/// rewrite the key bindings, so a key keeps resolving to whatever class its
/// slot currently belongs to.
///
/// The contracts on key lookups hold under
/// [`obeys_key_model`](vstd::std_specs::hash::obeys_key_model), the premise
/// under which vstd specifies `std`'s `HashMap` for the key type.
#[derive(Debug)]
pub struct DisjointHashMap<K, V> {
    keys: HashMap<K, usize>,
    inner: DisjointVec<V>,
}

/// Law: keyed lookup consistency. After a merge joins the classes of the
/// slots two keys are bound to, both keys resolve to the same class, and
/// that class owns the single merged value.
pub proof fn lemma_keyed_lookup_consistency<K, V>(
    key_map: Map<K, usize>,
    s: Seq<Item<V>>,
    k1: K,
    k2: K,
    u: V,
)
    requires
        forest_wf(s),
        key_map.contains_key(k1),
        key_map.contains_key(k2),
        combines(s, key_map[k1], key_map[k2]),
    ensures
        ({
            let s2 = merged(s, key_map[k1], key_map[k2], u);
            &&& repr(s2, key_map[k1] as int) == repr(s2, key_map[k2] as int)
            &&& class_value(s2, key_map[k1] as int) == u
            &&& class_value(s2, key_map[k2] as int) == u
        }),
{
    lemma_merged_repr(s, key_map[k1], key_map[k2], u, key_map[k1] as int);
    lemma_merged_repr(s, key_map[k1], key_map[k2], u, key_map[k2] as int);
}

impl<K, V> DisjointHashMap<K, V> {
    /// The key-to-slot bindings.
    pub closed spec fn key_map(self) -> Map<K, usize> {
        self.keys@
    }

    /// The slots of the underlying forest.
    pub closed spec fn slots(self) -> Seq<Item<V>> {
        self.inner@
    }

    /// The underlying forest's invariant. A key's bound slot is *not*
    /// guaranteed to be in bounds: a failed [`Self::try_merge`] clears the
    /// forest while the key bindings remain, after which every binding
    /// dangles and lookups report not-found.
    pub open spec fn wf(self) -> bool {
        forest_wf(self.slots())
    }

    /// Whether `key` is bound to a slot that exists in the forest, i.e.
    /// whether a lookup of `key` finds a class.
    pub open spec fn key_live(self, key: K) -> bool {
        self.key_map().contains_key(key) && self.key_map()[key] < self.slots().len()
    }

    /// An empty keyed map.
    pub fn new() -> (r: Self)
        ensures
            r.key_map() == Map::<K, usize>::empty(),
            r.slots() == Seq::<Item<V>>::empty(),
            r.wf(),
    {
        DisjointHashMap { keys: HashMap::new(), inner: DisjointVec::new() }
    }

    /// The number of forest slots ever created (not the number of keys).
    pub fn len(&self) -> (r: usize)
        ensures
            r == self.slots().len(),
    {
        self.inner.len()
    }

    /// Whether no element was ever inserted.
    pub fn is_empty(&self) -> (r: bool)
        ensures
            r == (self.slots().len() == 0),
    {
        self.inner.is_empty()
    }
}

impl<K: core::cmp::Eq + core::hash::Hash, V> DisjointHashMap<K, V> {
    /// Inserts `value` into the forest and binds `key` to the new slot,
    /// overwriting any earlier binding of an equal key (the earlier slot
    /// stays in the forest, merely unreachable by key). Returns the new
    /// slot's identifier.
    pub fn insert(&mut self, key: K, value: V) -> (r: usize)
        requires
            old(self).wf(),
        ensures
            r == old(self).slots().len(),
            final(self).slots() == old(self).slots().push(Item::Class(value)),
            obeys_key_model::<K>() ==> final(self).key_map() == old(self).key_map().insert(key, r),
            final(self).wf(),
    {
        let i = self.inner.push(value);
        self.keys.insert(key, i);
        i
    }

    /// A borrow of the underlying forest.
    pub fn as_vec(&self) -> (r: &DisjointVec<V>)
        ensures
            r@ == self.slots(),
    {
        &self.inner
    }

    /// The slot identifier `key` was bound to at insertion, or `None` when
    /// the key is absent.
    pub fn index_of(&self, key: &K) -> (r: Option<usize>)
        ensures
            obeys_key_model::<K>() ==> match r {
                Some(i) => self.key_map().contains_key(*key) && i == self.key_map()[*key],
                None => !self.key_map().contains_key(*key),
            },
    {
        match self.keys.get(key) {
            Some(i) => Some(*i),
            None => None,
        }
    }

    /// Resolves `key`'s slot to its class identifier, or `None` when the key
    /// is absent.
    pub fn class_of(&self, key: &K) -> (r: Option<usize>)
        requires
            self.wf(),
        ensures
            obeys_key_model::<K>() ==> match r {
                Some(c) => self.key_live(*key) && c == repr(
                    self.slots(),
                    self.key_map()[*key] as int,
                ),
                None => !self.key_live(*key),
            },
    {
        let i = match self.index_of(key) {
            Some(i) => i,
            None => {
                return None;
            },
        };
        self.inner.class_of(i)
    }

    /// Resolves `key` to its class identifier and a borrow of the class's
    /// value, or `None` when the key is absent.
    pub fn get_with_class(&self, key: &K) -> (r: Option<(usize, &V)>)
        requires
            self.wf(),
        ensures
            obeys_key_model::<K>() ==> match r {
                Some(cv) => self.key_live(*key) && cv.0 == repr(
                    self.slots(),
                    self.key_map()[*key] as int,
                ) && cv.1 == class_value(self.slots(), self.key_map()[*key] as int),
                None => !self.key_live(*key),
            },
    {
        let i = match self.index_of(key) {
            Some(i) => i,
            None => {
                return None;
            },
        };
        self.inner.get_with_class(i)
    }

    /// A borrow of the value of `key`'s class, or `None` when the key is
    /// absent.
    pub fn get(&self, key: &K) -> (r: Option<&V>)
        requires
            self.wf(),
        ensures
            obeys_key_model::<K>() ==> match r {
                Some(v) => self.key_live(*key) && v == class_value(
                    self.slots(),
                    self.key_map()[*key] as int,
                ),
                None => !self.key_live(*key),
            },
    {
        let i = match self.index_of(key) {
            Some(i) => i,
            None => {
                return None;
            },
        };
        self.inner.get(i)
    }

    /// Substitutes `value` for the value of `key`'s class and returns the
    /// value displaced; when the key is absent, hands `value` back unconsumed
    /// as the error and leaves everything untouched.
    pub fn replace(&mut self, key: &K, value: V) -> (r: Result<V, V>)
        requires
            old(self).wf(),
        ensures
            final(self).wf(),
            final(self).key_map() == old(self).key_map(),
            obeys_key_model::<K>() ==> match r {
                Ok(displaced) => old(self).key_live(*key) && displaced == class_value(
                    old(self).slots(),
                    old(self).key_map()[*key] as int,
                ) && final(self).slots() == old(self).slots().update(
                    repr(old(self).slots(), old(self).key_map()[*key] as int),
                    Item::Class(value),
                ),
                Err(handed_back) => !old(self).key_live(*key) && handed_back == value
                    && final(self).slots() == old(self).slots(),
            },
    {
        match self.index_of(key) {
            Some(i) => self.inner.replace(i, value),
            None => Err(value),
        }
    }

    /// The pairs of values a keyed merge of `a` and `b` may hand to its
    /// combine function: under the hash key model, exactly the values of the
    /// two (distinct) classes the keys resolve to; without it, any two
    /// values held by distinct classes of the forest.
    pub open spec fn may_combine(self, a: K, b: K, x: V, y: V) -> bool {
        if obeys_key_model::<K>() {
            &&& self.key_map().contains_key(a)
            &&& self.key_map().contains_key(b)
            &&& combines(self.slots(), self.key_map()[a], self.key_map()[b])
            &&& x == class_value(self.slots(), self.key_map()[a] as int)
            &&& y == class_value(self.slots(), self.key_map()[b] as int)
        } else {
            exists|i: usize, j: usize|
                #[trigger] combines(self.slots(), i, j) && x == class_value(self.slots(), i as int)
                    && y == class_value(self.slots(), j as int)
        }
    }

    /// Resolves both keys and merges their classes in the forest; see
    /// [`DisjointVec::merge`]. When either key is absent the whole call is a
    /// no-op returning `None` and `f` is never invoked.
    pub fn merge<F: FnOnce(V, V) -> V>(&mut self, a: &K, b: &K, f: F) -> (r: Option<usize>)
        requires
            old(self).wf(),
            forall|x: V, y: V| old(self).may_combine(*a, *b, x, y) ==> call_requires(f, (x, y)),
        ensures
            final(self).wf(),
            final(self).key_map() == old(self).key_map(),
            final(self).slots().len() == old(self).slots().len(),
            obeys_key_model::<K>() ==> (if old(self).key_map().contains_key(*a)
                && old(self).key_map().contains_key(*b) {
                merge_post(
                    old(self).slots(),
                    old(self).key_map()[*a],
                    old(self).key_map()[*b],
                    f,
                    r,
                    final(self).slots(),
                )
            } else {
                r is None && final(self).slots() == old(self).slots()
            }),
    {
        let ia = match self.index_of(a) {
            Some(i) => i,
            None => {
                return None;
            },
        };
        let ib = match self.index_of(b) {
            Some(i) => i,
            None => {
                return None;
            },
        };
        proof {
            if combines(self.slots(), ia, ib) {
                let x = class_value(self.slots(), ia as int);
                let y = class_value(self.slots(), ib as int);
                assert(old(self).may_combine(*a, *b, x, y));
                assert(call_requires(f, (x, y)));
            }
        }
        self.inner.merge(ia, ib, f)
    }

    /// Resolves both keys and merges their classes with a combine function
    /// that may fail; see [`DisjointVec::try_merge`] for the fatal
    /// clear-on-failure policy. When either key is absent the whole call is
    /// a no-op returning `Ok(None)` and `f` is never invoked.
    pub fn try_merge<E, F: FnOnce(V, V) -> Result<V, E>>(&mut self, a: &K, b: &K, f: F) -> (r:
        Result<Option<usize>, E>)
        requires
            old(self).wf(),
            forall|x: V, y: V| old(self).may_combine(*a, *b, x, y) ==> call_requires(f, (x, y)),
        ensures
            final(self).wf(),
            final(self).key_map() == old(self).key_map(),
            obeys_key_model::<K>() ==> (if old(self).key_map().contains_key(*a)
                && old(self).key_map().contains_key(*b) {
                try_merge_post(
                    old(self).slots(),
                    old(self).key_map()[*a],
                    old(self).key_map()[*b],
                    f,
                    r,
                    final(self).slots(),
                )
            } else {
                (r matches Ok(None)) && final(self).slots() == old(self).slots()
            }),
    {
        let ia = match self.index_of(a) {
            Some(i) => i,
            None => {
                return Ok(None);
            },
        };
        let ib = match self.index_of(b) {
            Some(i) => i,
            None => {
                return Ok(None);
            },
        };
        proof {
            if combines(self.slots(), ia, ib) {
                let x = class_value(self.slots(), ia as int);
                let y = class_value(self.slots(), ib as int);
                assert(old(self).may_combine(*a, *b, x, y));
                assert(call_requires(f, (x, y)));
            }
        }
        self.inner.try_merge(ia, ib, f)
    }

    /// A cursor over the forest's current class holders; results are forest
    /// identifiers, not keys. See [`DisjointVec::classes`].
    pub fn classes(&self) -> (r: Classes<V>)
        ensures
            r.slots() == self.slots(),
            r.position() == 0,
            r.inv(),
    {
        self.inner.classes()
    }

    /// Consumes the map into a cursor over the class holders' identifiers
    /// and owned values. See [`DisjointVec::into_classes`].
    pub fn into_classes(self) -> (r: IntoClasses<V>)
        ensures
            r.remaining() == self.slots(),
            r.position() == 0,
            r.inv(),
    {
        self.inner.into_classes()
    }
}

impl<K, V> Default for DisjointHashMap<K, V> {
    /// Same as [`DisjointHashMap::new`].
    fn default() -> (r: Self)
        ensures
            r.key_map() == Map::<K, usize>::empty(),
            r.slots() == Seq::<Item<V>>::empty(),
            r.wf(),
    {
        Self::new()
    }
}

} // verus!
