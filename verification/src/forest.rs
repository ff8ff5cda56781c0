use vstd::prelude::*;

verus! {

/// One slot of a [`DisjointVec`]: either the holder of a class's value, or
/// an indirection recording another slot closer to the class holder.
#[derive(Debug, Clone)]
pub enum Item<T> {
    /// The slot owns the authoritative value of its equivalence class.
    Class(T),
    /// The slot has been demoted by a merge; the payload is a slot
    /// identifier closer to the class holder.
    Indirection(usize),
}

/// A union-find forest of slots, each addressed by the 0-based identifier
/// assigned when its element was inserted. Identifiers are never reused:
/// a slot is born a class holder and can only be demoted to an indirection
/// by a merge, never promoted back.
///
/// Resolution follows indirection chains without rewriting them: every
/// indirection references a strictly smaller identifier, so chains are
/// short-lived only through merges, and a resolved class never depends on
/// when a lookup happened. Rewriting indirections during reads (path
/// compression) would be an internal cache with no observable effect on any
/// resolved class; this implementation keeps reads free of mutation instead,
/// so the read API needs no exclusive access.
#[derive(Debug, Clone)]
pub struct DisjointVec<T>(Vec<Item<T>>);

impl<T> View for DisjointVec<T> {
    type V = Seq<Item<T>>;

    closed spec fn view(&self) -> Seq<Item<T>> {
        self.0@
    }
}

/// Every indirection references a strictly smaller slot identifier, so
/// following indirections from any slot terminates at a class holder.
pub open spec fn forest_wf<T>(s: Seq<Item<T>>) -> bool {
    forall|i: int|
        0 <= i < s.len() ==> match #[trigger] s[i] {
            Item::Class(_) => true,
            Item::Indirection(j) => j < i,
        }
}

/// The representative (canonical class holder) that slot `i` resolves to.
pub open spec fn repr<T>(s: Seq<Item<T>>, i: int) -> int
    recommends
        forest_wf(s),
        0 <= i < s.len(),
    decreases i,
        when 0 <= i < s.len() && forest_wf(s)
{
    match s[i] {
        Item::Class(_) => i,
        Item::Indirection(j) => repr(s, j as int),
    }
}

/// The value currently owned by the class that slot `i` belongs to.
pub open spec fn class_value<T>(s: Seq<Item<T>>, i: int) -> T
    recommends
        forest_wf(s),
        0 <= i < s.len(),
{
    s[repr(s, i)]->Class_0
}

/// Both identifiers address existing slots.
pub open spec fn valid_pair<T>(s: Seq<Item<T>>, a: usize, b: usize) -> bool {
    a < s.len() && b < s.len()
}

/// A merge of `a` and `b` invokes the combine function: both identifiers are
/// in bounds and their classes differ.
pub open spec fn combines<T>(s: Seq<Item<T>>, a: usize, b: usize) -> bool {
    valid_pair(s, a, b) && repr(s, a as int) != repr(s, b as int)
}

/// The representative surviving a merge of `a`'s and `b`'s classes: always
/// the smaller of the two representatives, whatever the argument order.
pub open spec fn survivor<T>(s: Seq<Item<T>>, a: usize, b: usize) -> int {
    let ac = repr(s, a as int);
    let bc = repr(s, b as int);
    if ac <= bc {
        ac
    } else {
        bc
    }
}

/// The forest after merging the (distinct) classes of `a` and `b` into one
/// class holding `u`: the smaller representative keeps the class, the larger
/// becomes an indirection pointing at it.
pub open spec fn merged<T>(s: Seq<Item<T>>, a: usize, b: usize, u: T) -> Seq<Item<T>> {
    let ac = repr(s, a as int);
    let bc = repr(s, b as int);
    let lo = survivor(s, a, b);
    let hi = if ac <= bc {
        bc
    } else {
        ac
    };
    s.update(lo, Item::Class(u)).update(hi, Item::Indirection(lo as usize))
}

/// Everything [`DisjointVec::merge`] guarantees of a call on `(a, b, f)` that
/// turned the forest `s` into `s2` and returned `r`.
pub open spec fn merge_post<T, F: FnOnce(T, T) -> T>(
    s: Seq<Item<T>>,
    a: usize,
    b: usize,
    f: F,
    r: Option<usize>,
    s2: Seq<Item<T>>,
) -> bool {
    match r {
        None => !valid_pair(s, a, b) && s2 == s,
        Some(c) => valid_pair(s, a, b) && if repr(s, a as int) == repr(s, b as int) {
            c == repr(s, a as int) && s2 == s
        } else {
            c == survivor(s, a, b) && exists|u: T|
                #[trigger] call_ensures(f, (class_value(s, a as int), class_value(s, b as int)), u)
                    && s2 == merged(s, a, b, u)
        },
    }
}

/// Everything [`DisjointVec::try_merge`] guarantees of a call on `(a, b, f)`
/// that turned the forest `s` into `s2` and returned `r`.
pub open spec fn try_merge_post<T, E, F: FnOnce(T, T) -> Result<T, E>>(
    s: Seq<Item<T>>,
    a: usize,
    b: usize,
    f: F,
    r: Result<Option<usize>, E>,
    s2: Seq<Item<T>>,
) -> bool {
    match r {
        Ok(None) => !valid_pair(s, a, b) && s2 == s,
        Ok(Some(c)) => valid_pair(s, a, b) && if repr(s, a as int) == repr(s, b as int) {
            c == repr(s, a as int) && s2 == s
        } else {
            c == survivor(s, a, b) && exists|u: T|
                #[trigger] call_ensures(
                    f,
                    (class_value(s, a as int), class_value(s, b as int)),
                    Ok::<T, E>(u),
                ) && s2 == merged(s, a, b, u)
        },
        Err(e) => combines(s, a, b) && call_ensures(
            f,
            (class_value(s, a as int), class_value(s, b as int)),
            Err::<T, E>(e),
        ) && s2 == Seq::<Item<T>>::empty(),
    }
}

/// How many slots currently are class holders, i.e. how many classes exist.
pub open spec fn count_classes<T>(s: Seq<Item<T>>) -> nat
    decreases s.len(),
{
    if s.len() == 0 {
        0
    } else {
        count_classes(s.drop_last()) + if s.last() is Class {
            1nat
        } else {
            0nat
        }
    }
}

/// Replacing one slot adjusts the class count by the difference between the
/// old and the new slot kind.
pub proof fn lemma_count_classes_update<T>(s: Seq<Item<T>>, i: int, it: Item<T>)
    requires
        0 <= i < s.len(),
    ensures
        count_classes(s.update(i, it)) + (if s[i] is Class {
            1nat
        } else {
            0nat
        }) == count_classes(s) + (if it is Class {
            1nat
        } else {
            0nat
        }),
    decreases s.len(),
{
    if i == s.len() - 1 {
        assert(s.update(i, it).drop_last() =~= s.drop_last());
    } else {
        assert(s.update(i, it).drop_last() =~= s.drop_last().update(i, it));
        lemma_count_classes_update(s.drop_last(), i, it);
    }
}

/// The representative of slot `i` lies at or below `i` and is a class holder.
pub proof fn lemma_repr_is_class<T>(s: Seq<Item<T>>, i: int)
    requires
        forest_wf(s),
        0 <= i < s.len(),
    ensures
        0 <= repr(s, i) <= i,
        s[repr(s, i)] is Class,
        s[repr(s, i)] == Item::Class(class_value(s, i)),
    decreases i,
{
    match s[i] {
        Item::Class(_) => {}
        Item::Indirection(j) => {
            lemma_repr_is_class(s, j as int);
        }
    }
}

/// Law: insertion returns sequential, stable identifiers. Appending a new
/// class holder gives it the next identifier, which resolves to itself and
/// owns the new value, while the resolution and value of every existing
/// identifier are left unchanged.
pub proof fn lemma_push_stable<T>(s: Seq<Item<T>>, v: T, i: int)
    requires
        forest_wf(s),
        0 <= i < s.len(),
    ensures
        forest_wf(s.push(Item::Class(v))),
        repr(s.push(Item::Class(v)), s.len() as int) == s.len(),
        class_value(s.push(Item::Class(v)), s.len() as int) == v,
        repr(s.push(Item::Class(v)), i) == repr(s, i),
        class_value(s.push(Item::Class(v)), i) == class_value(s, i),
    decreases i,
{
    let s2 = s.push(Item::Class(v));
    assert forall|k: int| 0 <= k < s2.len() implies match #[trigger] s2[k] {
        Item::Class(_) => true,
        Item::Indirection(j) => j < k,
    } by {
        if k < s.len() {
            assert(s2[k] == s[k]);
        }
    }
    lemma_repr_is_class(s, i);
    match s[i] {
        Item::Class(_) => {
            assert(s2[i] == s[i]);
        },
        Item::Indirection(j) => {
            assert(s2[i] == s[i]);
            lemma_push_stable(s, v, j as int);
        },
    }
}

/// Law: resolution is idempotent. The representative that an identifier
/// resolves to resolves to itself, so resolving twice in a row yields the
/// same class both times.
pub proof fn lemma_resolve_idempotent<T>(s: Seq<Item<T>>, i: int)
    requires
        forest_wf(s),
        0 <= i < s.len(),
    ensures
        repr(s, repr(s, i)) == repr(s, i),
{
    lemma_repr_is_class(s, i);
}

/// Law: merging an identifier with itself is the identity. Any outcome the
/// merge contract permits for `merge(a, a, f)` returns `a`'s class and
/// leaves the forest unchanged; the combine function is never consulted
/// (the contract demands its precondition only when two distinct classes
/// meet).
pub proof fn lemma_merge_identity<T, F: FnOnce(T, T) -> T>(
    s: Seq<Item<T>>,
    a: usize,
    f: F,
    r: Option<usize>,
    s2: Seq<Item<T>>,
)
    requires
        forest_wf(s),
        a < s.len(),
        merge_post(s, a, a, f, r, s2),
    ensures
        r == Some((repr(s, a as int) as usize)),
        s2 == s,
{
    lemma_repr_is_class(s, a as int);
}

/// After a merge of the classes of `a` and `b`, every slot that belonged to
/// either class resolves to the survivor, which owns the combined value;
/// every other slot resolves to its old representative.
pub proof fn lemma_merged_repr<T>(s: Seq<Item<T>>, a: usize, b: usize, u: T, i: int)
    requires
        forest_wf(s),
        combines(s, a, b),
        0 <= i < s.len(),
    ensures
        forest_wf(merged(s, a, b, u)),
        merged(s, a, b, u).len() == s.len(),
        repr(merged(s, a, b, u), i) == if repr(s, i) == repr(s, a as int) || repr(s, i) == repr(
            s,
            b as int,
        ) {
            survivor(s, a, b)
        } else {
            repr(s, i)
        },
        (repr(s, i) == repr(s, a as int) || repr(s, i) == repr(s, b as int)) ==> class_value(
            merged(s, a, b, u),
            i,
        ) == u,
    decreases i,
{
    let s2 = merged(s, a, b, u);
    let ac = repr(s, a as int);
    let bc = repr(s, b as int);
    let lo = survivor(s, a, b);
    let hi = if ac <= bc {
        bc
    } else {
        ac
    };
    lemma_repr_is_class(s, a as int);
    lemma_repr_is_class(s, b as int);
    assert forall|k: int| 0 <= k < s2.len() implies match #[trigger] s2[k] {
        Item::Class(_) => true,
        Item::Indirection(j) => j < k,
    } by {
        if k != lo && k != hi {
            assert(s2[k] == s[k]);
        }
    }
    lemma_repr_is_class(s, i);
    if i == hi {
        assert(s2[i] == Item::<T>::Indirection(lo as usize));
        assert(s2[lo] == Item::Class(u));
        assert(repr(s2, i) == repr(s2, lo));
    } else if i == lo {
        assert(s2[i] == Item::Class(u));
    } else {
        assert(s2[i] == s[i]);
        match s[i] {
            Item::Class(_) => {
                assert(repr(s, i) == i);
            },
            Item::Indirection(j) => {
                lemma_merged_repr(s, a, b, u, j as int);
            },
        }
    }
}

/// Law: the merge outcome is deterministic and independent of argument
/// order. Two merges of the same two distinct classes, one on `(a, b, f)`
/// and one on `(b, a, g)` where `g` computes `f` with its arguments flipped
/// and `f` is deterministic, return the same surviving representative — the
/// smaller of the two — and produce equal forests holding equal merged
/// values.
pub proof fn lemma_merge_deterministic<T, F: FnOnce(T, T) -> T, G: FnOnce(T, T) -> T>(
    s: Seq<Item<T>>,
    a: usize,
    b: usize,
    f: F,
    g: G,
    r1: Option<usize>,
    s1: Seq<Item<T>>,
    r2: Option<usize>,
    s2: Seq<Item<T>>,
)
    requires
        forest_wf(s),
        combines(s, a, b),
        merge_post(s, a, b, f, r1, s1),
        merge_post(s, b, a, g, r2, s2),
        forall|x: T, y: T, z: T| #[trigger] call_ensures(g, (x, y), z) ==> call_ensures(
            f,
            (y, x),
            z,
        ),
        forall|x: T, y: T, z1: T, z2: T|
            call_ensures(f, (x, y), z1) && call_ensures(f, (x, y), z2) ==> z1 == z2,
    ensures
        r1 == r2,
        r1 == Some((survivor(s, a, b) as usize)),
        s1 == s2,
{
    lemma_repr_is_class(s, a as int);
    lemma_repr_is_class(s, b as int);
    let va = class_value(s, a as int);
    let vb = class_value(s, b as int);
    let u1 = choose|u: T| #[trigger] call_ensures(f, (va, vb), u) && s1 == merged(s, a, b, u);
    let u2 = choose|u: T| #[trigger] call_ensures(g, (vb, va), u) && s2 == merged(s, b, a, u);
    assert(call_ensures(f, (va, vb), u2));
    assert(u1 == u2);
    assert(merged(s, b, a, u1) == merged(s, a, b, u1));
}

impl<T> DisjointVec<T> {
    /// The forest's invariant: every indirection references a smaller slot.
    pub open spec fn wf(&self) -> bool {
        forest_wf(self@)
    }

    /// An empty forest.
    pub fn new() -> (r: Self)
        ensures
            r@ == Seq::<Item<T>>::empty(),
            r.wf(),
    {
        DisjointVec(Vec::new())
    }

    /// An empty forest with room reserved for `capacity` slots.
    pub fn with_capacity(capacity: usize) -> (r: Self)
        ensures
            r@ == Seq::<Item<T>>::empty(),
            r.wf(),
    {
        DisjointVec(Vec::with_capacity(capacity))
    }

    /// The number of slots (class holders and indirections together).
    pub fn len(&self) -> (r: usize)
        ensures
            r == self@.len(),
    {
        self.0.len()
    }

    /// Whether no element was ever inserted.
    pub fn is_empty(&self) -> (r: bool)
        ensures
            r == (self@.len() == 0),
    {
        self.0.is_empty()
    }

    /// Appends a new class holder owning `value` and returns its identifier,
    /// which equals the previous size. Never fails.
    pub fn push(&mut self, value: T) -> (r: usize)
        requires
            old(self).wf(),
        ensures
            r == old(self)@.len(),
            final(self)@ == old(self)@.push(Item::Class(value)),
            final(self).wf(),
    {
        let i = self.0.len();
        self.0.push(Item::Class(value));
        i
    }

    /// Follows indirections from `i` to the representative of its class.
    /// Returns `None` exactly when `i` is out of bounds.
    pub fn class_of(&self, i: usize) -> (r: Option<usize>)
        requires
            self.wf(),
        ensures
            match r {
                Some(c) => i < self@.len() && c == repr(self@, i as int),
                None => i >= self@.len(),
            },
        decreases i,
    {
        if i >= self.0.len() {
            return None;
        }
        match &self.0[i] {
            Item::Class(_) => Some(i),
            Item::Indirection(j) => self.class_of(*j),
        }
    }

    /// Resolves `i` and returns its class's identifier together with a
    /// borrow of the class's value. `None` exactly when `i` is out of bounds.
    pub fn get_with_class(&self, i: usize) -> (r: Option<(usize, &T)>)
        requires
            self.wf(),
        ensures
            match r {
                Some(cv) => i < self@.len() && cv.0 == repr(self@, i as int) && cv.1
                    == class_value(self@, i as int),
                None => i >= self@.len(),
            },
        decreases i,
    {
        if i >= self.0.len() {
            return None;
        }
        match &self.0[i] {
            Item::Class(t) => Some((i, t)),
            Item::Indirection(j) => self.get_with_class(*j),
        }
    }

    /// Resolves `i` and returns a borrow of its class's value.
    pub fn get(&self, i: usize) -> (r: Option<&T>)
        requires
            self.wf(),
        ensures
            match r {
                Some(v) => i < self@.len() && v == class_value(self@, i as int),
                None => i >= self@.len(),
            },
    {
        match self.get_with_class(i) {
            Some((_, v)) => Some(v),
            None => None,
        }
    }

    /// Resolves `i` and returns its class's identifier together with a
    /// mutable borrow of the class's value. Only the class's value can
    /// change through the borrow; the slot structure stays as it was.
    /// `None` exactly when `i` is out of bounds, in which case the forest
    /// is untouched.
    pub fn get_mut_with_class(&mut self, i: usize) -> (r: Option<(usize, &mut T)>)
        requires
            old(self).wf(),
        ensures
            match r {
                Some(cv) => i < old(self)@.len() && cv.0 == repr(old(self)@, i as int) && *cv.1
                    == class_value(old(self)@, i as int) && final(self)@ == old(self)@.update(
                    cv.0 as int,
                    Item::Class(*final(cv.1)),
                ),
                None => i >= old(self)@.len() && *final(self) == *old(self),
            },
            final(self).wf(),
    {
        let c = match self.class_of(i) {
            Some(c) => c,
            None => {
                return None;
            },
        };
        proof {
            lemma_repr_is_class(self@, i as int);
        }
        let item = &mut self.0[c];
        match item.as_value_mut() {
            Some(t) => Some((c, t)),
            None => {
                proof {
                    assert(false);
                }
                vstd::pervasive::unreached()
            },
        }
    }

    /// Resolves `i` and returns a mutable borrow of its class's value.
    pub fn get_mut(&mut self, i: usize) -> (r: Option<&mut T>)
        requires
            old(self).wf(),
        ensures
            match r {
                Some(v) => i < old(self)@.len() && *v == class_value(old(self)@, i as int)
                    && final(self)@ == old(self)@.update(
                    repr(old(self)@, i as int),
                    Item::Class(*final(v)),
                ),
                None => i >= old(self)@.len() && *final(self) == *old(self),
            },
            final(self).wf(),
    {
        match self.get_mut_with_class(i) {
            Some((_, v)) => Some(v),
            None => None,
        }
    }

    /// Moves the value out of the class holder at `c`, leaving a placeholder
    /// indirection behind until the caller rewrites the slot.
    fn take_value(&mut self, c: usize) -> (v: T)
        requires
            c < old(self)@.len(),
            old(self)@[c as int] is Class,
        ensures
            v == old(self)@[c as int]->Class_0,
            final(self)@ == old(self)@.update(c as int, Item::Indirection(0)),
    {
        let mut slot = Item::Indirection(0);
        core::mem::swap(&mut self.0[c], &mut slot);
        match slot.into_value() {
            Some(t) => t,
            None => vstd::pervasive::unreached(),
        }
    }

    /// Merges the classes of `a` and `b`. When both identifiers are in
    /// bounds and the classes differ, both class values are handed to
    /// `f` (a's value first: `f` need not be commutative), the smaller
    /// representative survives as the holder of the combined value, and the
    /// larger becomes an indirection to it. Merging a class with itself is a
    /// no-op returning that class. `None` exactly when an identifier is out
    /// of bounds, in which case nothing is mutated and `f` is never invoked.
    pub fn merge<F: FnOnce(T, T) -> T>(&mut self, a: usize, b: usize, f: F) -> (r: Option<usize>)
        requires
            old(self).wf(),
            combines(old(self)@, a, b) ==> call_requires(
                f,
                (class_value(old(self)@, a as int), class_value(old(self)@, b as int)),
            ),
        ensures
            merge_post(old(self)@, a, b, f, r, final(self)@),
            final(self).wf(),
            final(self)@.len() == old(self)@.len(),
            combines(old(self)@, a, b) ==> count_classes(final(self)@) + 1 == count_classes(
                old(self)@,
            ),
            !combines(old(self)@, a, b) ==> count_classes(final(self)@) == count_classes(
                old(self)@,
            ),
    {
        let ghost s = self@;
        let ac = match self.class_of(a) {
            Some(c) => c,
            None => {
                return None;
            },
        };
        let bc = match self.class_of(b) {
            Some(c) => c,
            None => {
                return None;
            },
        };
        if ac == bc {
            return Some(ac);
        }
        proof {
            lemma_repr_is_class(s, a as int);
            lemma_repr_is_class(s, b as int);
        }
        let av = self.take_value(ac);
        let bv = self.take_value(bc);
        let value = f(av, bv);
        let lo = if bc < ac {
            bc
        } else {
            ac
        };
        let hi = if bc < ac {
            ac
        } else {
            bc
        };
        self.0[lo] = Item::Class(value);
        self.0[hi] = Item::Indirection(lo);
        proof {
            assert(call_ensures(f, (class_value(s, a as int), class_value(s, b as int)), value));
            assert(self@ =~= merged(s, a, b, value));
            assert(forest_wf(self@));
            lemma_count_classes_update(s, lo as int, Item::Class(value));
            lemma_count_classes_update(
                s.update(lo as int, Item::Class(value)),
                hi as int,
                Item::Indirection(lo),
            );
        }
        Some(lo)
    }

    /// Like [`Self::merge`], except the combine function may fail. A failure
    /// strikes after both class values were already moved out of their
    /// holders, so it is treated as fatal: the whole forest is cleared (every
    /// previously issued identifier stops resolving) and the combine error is
    /// propagated.
    pub fn try_merge<E, F: FnOnce(T, T) -> Result<T, E>>(&mut self, a: usize, b: usize, f: F) -> (r:
        Result<Option<usize>, E>)
        requires
            old(self).wf(),
            combines(old(self)@, a, b) ==> call_requires(
                f,
                (class_value(old(self)@, a as int), class_value(old(self)@, b as int)),
            ),
        ensures
            try_merge_post(old(self)@, a, b, f, r, final(self)@),
            final(self).wf(),
            r is Ok ==> final(self)@.len() == old(self)@.len(),
            r is Ok && combines(old(self)@, a, b) ==> count_classes(final(self)@) + 1
                == count_classes(old(self)@),
            r is Ok && !combines(old(self)@, a, b) ==> count_classes(final(self)@)
                == count_classes(old(self)@),
    {
        let ghost s = self@;
        let ac = match self.class_of(a) {
            Some(c) => c,
            None => {
                return Ok(None);
            },
        };
        let bc = match self.class_of(b) {
            Some(c) => c,
            None => {
                return Ok(None);
            },
        };
        if ac == bc {
            return Ok(Some(ac));
        }
        proof {
            lemma_repr_is_class(s, a as int);
            lemma_repr_is_class(s, b as int);
        }
        let av = self.take_value(ac);
        let bv = self.take_value(bc);
        match f(av, bv) {
            Ok(value) => {
                let lo = if bc < ac {
                    bc
                } else {
                    ac
                };
                let hi = if bc < ac {
                    ac
                } else {
                    bc
                };
                self.0[lo] = Item::Class(value);
                self.0[hi] = Item::Indirection(lo);
                proof {
                    assert(call_ensures(
                        f,
                        (class_value(s, a as int), class_value(s, b as int)),
                        Ok::<T, E>(value),
                    ));
                    assert(self@ =~= merged(s, a, b, value));
                    assert(forest_wf(self@));
                    lemma_count_classes_update(s, lo as int, Item::Class(value));
                    lemma_count_classes_update(
                        s.update(lo as int, Item::Class(value)),
                        hi as int,
                        Item::Indirection(lo),
                    );
                }
                Ok(Some(lo))
            },
            Err(e) => {
                self.0.clear();
                Err(e)
            },
        }
    }

    /// Substitutes `value` for the value of `i`'s class and returns the value
    /// displaced. When `i` is out of bounds the forest is untouched and
    /// `value` is handed back unconsumed as the error.
    pub fn replace(&mut self, i: usize, value: T) -> (r: Result<T, T>)
        requires
            old(self).wf(),
        ensures
            match r {
                Ok(displaced) => i < old(self)@.len() && displaced == class_value(
                    old(self)@,
                    i as int,
                ) && final(self)@ == old(self)@.update(
                    repr(old(self)@, i as int),
                    Item::Class(value),
                ),
                Err(handed_back) => i >= old(self)@.len() && handed_back == value && *final(self)
                    == *old(self),
            },
            final(self).wf(),
    {
        match self.get_mut(i) {
            Some(current) => {
                let mut displaced = value;
                core::mem::swap(current, &mut displaced);
                Ok(displaced)
            },
            None => Err(value),
        }
    }
}

impl<T> DisjointVec<T> {
    /// Consumes the forest and applies `f` to every class holder's value.
    /// Indirection slots and their targets are untouched, so identifiers and
    /// class structure are preserved; only the values change.
    pub fn map<U, F: Fn(T) -> U>(self, f: F) -> (r: DisjointVec<U>)
        requires
            forall|i: int|
                0 <= i < self@.len() ==> match #[trigger] self@[i] {
                    Item::Class(t) => call_requires(f, (t,)),
                    Item::Indirection(_) => true,
                },
        ensures
            r@.len() == self@.len(),
            forall|i: int|
                0 <= i < self@.len() ==> match #[trigger] self@[i] {
                    Item::Class(t) => r@[i] is Class && call_ensures(f, (t,), r@[i]->Class_0),
                    Item::Indirection(j) => r@[i] == Item::<U>::Indirection(j),
                },
            self.wf() ==> r.wf(),
    {
        let ghost orig = self@;
        let mut items = self.0;
        let mut out: Vec<Item<U>> = Vec::new();
        while items.len() > 0
            invariant
                out@.len() + items@.len() == orig.len(),
                items@ == orig.skip(out@.len() as int),
                forall|i: int|
                    0 <= i < orig.len() ==> match #[trigger] orig[i] {
                        Item::Class(t) => call_requires(f, (t,)),
                        Item::Indirection(_) => true,
                    },
                forall|i: int|
                    0 <= i < out@.len() ==> match #[trigger] orig[i] {
                        Item::Class(t) => out@[i] is Class && call_ensures(
                            f,
                            (t,),
                            out@[i]->Class_0,
                        ),
                        Item::Indirection(j) => out@[i] == Item::<U>::Indirection(j),
                    },
            decreases items@.len(),
        {
            let ghost k = out@.len() as int;
            let item = items.remove(0);
            proof {
                assert(item == orig[k]);
                assert(items@ =~= orig.skip(k + 1));
            }
            match item {
                Item::Class(t) => out.push(Item::Class(f(t))),
                Item::Indirection(j) => out.push(Item::Indirection(j)),
            }
        }
        let r = DisjointVec(out);
        proof {
            if forest_wf(orig) {
                assert forall|i: int| 0 <= i < r@.len() implies match #[trigger] r@[i] {
                    Item::Class(_) => true,
                    Item::Indirection(j) => j < i,
                } by {
                    assert(0 <= i < orig.len());
                    assert(match orig[i] {
                        Item::Class(_) => true,
                        Item::Indirection(j) => j < i,
                    });
                }
            }
        }
        r
    }

    /// Appends each of `values` as a new class holder, in order; equivalent
    /// to repeated [`Self::push`].
    pub fn extend(&mut self, values: Vec<T>)
        requires
            old(self).wf(),
        ensures
            final(self)@ == old(self)@ + values@.map_values(|t: T| Item::Class(t)),
            final(self).wf(),
    {
        let ghost vs = values@;
        let mut values = values;
        while values.len() > 0
            invariant
                values@.len() <= vs.len(),
                values@ == vs.skip((vs.len() - values@.len()) as int),
                self@ == old(self)@ + vs.take((vs.len() - values@.len()) as int).map_values(
                    |t: T| Item::Class(t),
                ),
                forest_wf(self@),
            decreases values@.len(),
        {
            let ghost k = (vs.len() - values@.len()) as int;
            let v = values.remove(0);
            proof {
                assert(v == vs[k]);
                assert(values@ =~= vs.skip(k + 1));
            }
            self.0.push(Item::Class(v));
            proof {
                assert(self@ =~= old(self)@ + vs.take(k + 1).map_values(|t: T| Item::Class(t)));
            }
        }
        proof {
            assert(vs.take(vs.len() as int) =~= vs);
        }
    }

    /// A single-pass cursor over the current class holders, in increasing
    /// identifier order. The forest must not be mutated while it is consumed
    /// (the borrow enforces this).
    pub fn classes(&self) -> (r: Classes<T>)
        ensures
            r.slots() == self@,
            r.position() == 0,
            r.inv(),
    {
        Classes { items: &self.0, pos: 0 }
    }

    /// Consumes the forest into a cursor that yields each class holder's
    /// identifier and owned value, in increasing identifier order.
    pub fn into_classes(self) -> (r: IntoClasses<T>)
        ensures
            r.remaining() == self@,
            r.position() == 0,
            r.inv(),
    {
        proof {
            assert(self.0.len() == self@.len());
        }
        IntoClasses { rest: self.0, offset: 0 }
    }
}

impl<T> Default for DisjointVec<T> {
    /// Same as [`DisjointVec::new`].
    fn default() -> (r: Self)
        ensures
            r@ == Seq::<Item<T>>::empty(),
            r.wf(),
    {
        Self::new()
    }
}

/// Cursor returned by [`DisjointVec::classes`]: walks the slots from `pos`
/// upward and stops at each class holder.
pub struct Classes<'a, T> {
    items: &'a Vec<Item<T>>,
    pos: usize,
}

impl<'a, T> Classes<'a, T> {
    /// The slots being walked.
    pub closed spec fn slots(self) -> Seq<Item<T>> {
        self.items@
    }

    /// The next slot the cursor will look at.
    pub closed spec fn position(self) -> int {
        self.pos as int
    }

    /// The cursor never points past the end of the slots.
    pub open spec fn inv(self) -> bool {
        self.position() <= self.slots().len()
    }

    /// The next class holder at or after the cursor, as its identifier and a
    /// borrow of its value, or `None` when only indirections remain.
    pub fn next(&mut self) -> (r: Option<(usize, &'a T)>)
        requires
            old(self).inv(),
        ensures
            final(self).slots() == old(self).slots(),
            final(self).inv(),
            match r {
                Some(iv) => old(self).position() <= iv.0 < old(self).slots().len() && old(
                    self,
                ).slots()[iv.0 as int] == Item::Class(*iv.1) && final(self).position() == iv.0 + 1
                    && (forall|k: int|
                    old(self).position() <= k < iv.0 ==> !(#[trigger] old(self).slots()[k]
                        is Class)),
                None => final(self).position() == old(self).slots().len() && (forall|k: int|
                    old(self).position() <= k < old(self).slots().len() ==> !(#[trigger] old(
                        self,
                    ).slots()[k] is Class)),
            },
    {
        let items: &'a Vec<Item<T>> = self.items;
        let ghost start: int = self.pos as int;
        while self.pos < items.len()
            invariant
                self.items == items,
                old(self).items == items,
                start == old(self).pos as int,
                start <= self.pos as int <= items@.len(),
                forall|k: int| start <= k < self.pos as int ==> !(#[trigger] items@[k] is Class),
            decreases items@.len() - self.pos as int,
        {
            let i = self.pos;
            self.pos = i + 1;
            match &items[i] {
                Item::Class(t) => {
                    return Some((i, t));
                },
                Item::Indirection(_) => {},
            }
        }
        None
    }
}

/// Cursor returned by [`DisjointVec::into_classes`]: hands out each class
/// holder's identifier and owned value.
pub struct IntoClasses<T> {
    rest: Vec<Item<T>>,
    offset: usize,
}

impl<T> IntoClasses<T> {
    /// The slots not yet handed out or skipped.
    pub closed spec fn remaining(self) -> Seq<Item<T>> {
        self.rest@
    }

    /// The identifier of the first remaining slot.
    pub closed spec fn position(self) -> int {
        self.offset as int
    }

    /// Identifiers of the remaining slots stay representable.
    pub open spec fn inv(self) -> bool {
        self.position() + self.remaining().len() <= usize::MAX
    }

    /// The next class holder among the remaining slots, as its identifier
    /// and owned value, or `None` when only indirections remain.
    pub fn next(&mut self) -> (r: Option<(usize, T)>)
        requires
            old(self).inv(),
        ensures
            final(self).inv(),
            match r {
                Some(iv) => {
                    let d = iv.0 - old(self).position();
                    &&& 0 <= d < old(self).remaining().len()
                    &&& old(self).remaining()[d] == Item::Class(iv.1)
                    &&& forall|k: int|
                        0 <= k < d ==> !(#[trigger] old(self).remaining()[k] is Class)
                    &&& final(self).remaining() == old(self).remaining().skip(d + 1)
                    &&& final(self).position() == iv.0 + 1
                },
                None => final(self).remaining().len() == 0 && (forall|k: int|
                    0 <= k < old(self).remaining().len() ==> !(#[trigger] old(
                        self,
                    ).remaining()[k] is Class)),
            },
    {
        let ghost start_off: int = self.offset as int;
        let ghost start_rest = self.rest@;
        while self.rest.len() > 0
            invariant
                old(self).inv(),
                start_off == old(self).offset as int,
                start_rest == old(self).rest@,
                start_off <= self.offset as int,
                self.offset as int + self.rest@.len() == start_off + start_rest.len(),
                start_off + start_rest.len() <= usize::MAX,
                self.rest@ == start_rest.skip(self.offset as int - start_off),
                forall|k: int|
                    0 <= k < self.offset as int - start_off ==> !(#[trigger] start_rest[k]
                        is Class),
            decreases self.rest@.len(),
        {
            let ghost d = self.offset as int - start_off;
            let item = self.rest.remove(0);
            proof {
                assert(item == start_rest[d]);
                assert(self.rest@ =~= start_rest.skip(d + 1));
            }
            let i = self.offset;
            self.offset = i + 1;
            match item {
                Item::Class(t) => {
                    return Some((i, t));
                },
                Item::Indirection(_) => {},
            }
        }
        None
    }
}

impl<T> Item<T> {
    /// The owned value of a class holder; `None` for an indirection.
    pub fn into_value(self) -> (r: Option<T>)
        ensures
            match self {
                Item::Class(t) => r == Some(t),
                Item::Indirection(_) => r is None,
            },
    {
        match self {
            Item::Class(t) => Some(t),
            Item::Indirection(_) => None,
        }
    }

    /// A mutable borrow of a class holder's value; `None` for an indirection,
    /// which is left unchanged.
    pub fn as_value_mut(&mut self) -> (r: Option<&mut T>)
        ensures
            match *old(self) {
                Item::Class(t) => r is Some && *r.unwrap() == t && *final(self) == Item::Class(
                    *final(r.unwrap()),
                ),
                Item::Indirection(_) => r is None && *final(self) == *old(self),
            },
    {
        match self {
            Item::Class(t) => Some(t),
            Item::Indirection(_) => None,
        }
    }

    /// Applies `f` to a class holder's value; an indirection passes through
    /// unchanged.
    pub fn map<U, F: FnOnce(T) -> U>(self, f: F) -> (r: Item<U>)
        requires
            self matches Item::Class(t) ==> call_requires(f, (t,)),
        ensures
            match self {
                Item::Class(t) => r is Class && call_ensures(f, (t,), r->Class_0),
                Item::Indirection(j) => r == Item::<U>::Indirection(j),
            },
    {
        match self {
            Item::Class(t) => Item::Class(f(t)),
            Item::Indirection(j) => Item::Indirection(j),
        }
    }
}

} // verus!
