//! Support containers: a reverse-order wrapper, an insertion-ordered
//! set of state identifiers, and a priority queue driven by a caller
//! supplied comparator.

use core::cmp::Ordering;
use std::collections::hash_map::RandomState;

use linked_hash_map::LinkedHashMap;
use vstd::multiset::Multiset;
use vstd::prelude::*;

verus! {

/// Inverts a total order, for placement into an order-reversing
/// container.
#[derive(Debug)]
pub struct RevOrd<T>(pub T);

impl<T: PartialEq + vstd::std_specs::cmp::PartialEqSpec> PartialEq for RevOrd<T> {
    fn eq(&self, other: &Self) -> (r: bool) {
        other.0 == self.0
    }
}

impl<T: PartialEq + vstd::std_specs::cmp::PartialEqSpec> vstd::std_specs::cmp::PartialEqSpecImpl
    for RevOrd<T> {
    open spec fn obeys_eq_spec() -> bool {
        T::obeys_eq_spec()
    }

    open spec fn eq_spec(&self, other: &Self) -> bool {
        other.0.eq_spec(&self.0)
    }
}

impl<
    T: PartialOrd + vstd::std_specs::cmp::PartialEqSpec + vstd::std_specs::cmp::PartialOrdSpec,
> PartialOrd for RevOrd<T> {
    fn partial_cmp(&self, other: &Self) -> (r: Option<Ordering>) {
        other.0.partial_cmp(&self.0)
    }
}

impl<
    T: PartialOrd + vstd::std_specs::cmp::PartialEqSpec + vstd::std_specs::cmp::PartialOrdSpec,
> vstd::std_specs::cmp::PartialOrdSpecImpl for RevOrd<T> {
    open spec fn obeys_partial_cmp_spec() -> bool {
        T::obeys_partial_cmp_spec()
    }

    open spec fn partial_cmp_spec(&self, other: &Self) -> Option<Ordering> {
        other.0.partial_cmp_spec(&self.0)
    }
}

/// The keys a linked hash map holds, in insertion order, front first.
pub uninterp spec fn ordered_keys(m: LinkedHashMap<usize, (), RandomState>) -> Seq<usize>;

#[verifier::external_type_specification]
#[verifier::external_body]
#[verifier::reject_recursive_types(K)]
#[verifier::reject_recursive_types(V)]
#[verifier::reject_recursive_types(S)]
pub struct ExLinkedHashMap<K, V, S>(LinkedHashMap<K, V, S>);

/// Relies on linked_hash_map::LinkedHashMap::new: the new map is
/// empty.
#[verifier::external_body]
fn lhm_new() -> (r: LinkedHashMap<usize, (), RandomState>)
    ensures
        ordered_keys(r) == Seq::<usize>::empty(),
{
    LinkedHashMap::new()
}

/// Relies on linked_hash_map::LinkedHashMap::insert: a key not yet
/// present is attached at the back of the insertion order.
#[verifier::external_body]
fn lhm_insert(m: &mut LinkedHashMap<usize, (), RandomState>, k: usize)
    requires
        !ordered_keys(*old(m)).contains(k),
    ensures
        ordered_keys(*final(m)) == ordered_keys(*old(m)).push(k),
{
    m.insert(k, ());
}

/// Relies on linked_hash_map::LinkedHashMap::contains_key.
#[verifier::external_body]
fn lhm_contains(m: &LinkedHashMap<usize, (), RandomState>, k: usize) -> (r: bool)
    ensures
        r == ordered_keys(*m).contains(k),
{
    m.contains_key(&k)
}

/// Relies on linked_hash_map::LinkedHashMap::remove: the key's node is
/// detached and the other keys keep their order.
#[verifier::external_body]
fn lhm_remove(m: &mut LinkedHashMap<usize, (), RandomState>, k: usize) -> (r: Option<()>)
    ensures
        ordered_keys(*final(m)) == ordered_keys(*old(m)).filter(|x: usize| x != k),
        r is Some <==> ordered_keys(*old(m)).contains(k),
{
    m.remove(&k)
}

/// Relies on linked_hash_map::LinkedHashMap::is_empty.
#[verifier::external_body]
fn lhm_is_empty(m: &LinkedHashMap<usize, (), RandomState>) -> (r: bool)
    ensures
        r == (ordered_keys(*m).len() == 0),
{
    m.is_empty()
}

/// Relies on linked_hash_map::LinkedHashMap::pop_front: the oldest
/// entry leaves first.
#[verifier::external_body]
fn lhm_pop_front(m: &mut LinkedHashMap<usize, (), RandomState>) -> (r: Option<(usize, ())>)
    ensures
        match r {
            None => ordered_keys(*old(m)).len() == 0 && *final(m) == *old(m),
            Some((k, v)) => ordered_keys(*old(m)).len() > 0 && k == ordered_keys(*old(m))[0]
                && ordered_keys(*final(m)) == ordered_keys(*old(m)).drop_first(),
        },
{
    m.pop_front()
}

/// Relies on linked_hash_map::LinkedHashMap::keys: iteration follows
/// the insertion order.
#[verifier::external_body]
fn lhm_keys_vec(m: &LinkedHashMap<usize, (), RandomState>) -> (r: Vec<usize>)
    ensures
        r@ == ordered_keys(*m),
{
    m.keys().cloned().collect()
}

/// A set of state identifiers that remembers insertion order:
/// membership tests, removal, and first-in-first-out popping.
/// Re-inserting a member leaves the order unchanged.
pub struct LinkedHashSet {
    pub inner: LinkedHashMap<usize, (), RandomState>,
}

impl View for LinkedHashSet {
    type V = Seq<usize>;

    open spec fn view(&self) -> Seq<usize> {
        ordered_keys(self.inner)
    }
}

impl LinkedHashSet {
    /// The members, each exactly once.
    pub open spec fn wf(&self) -> bool {
        self@.no_duplicates()
    }

    pub fn new() -> (r: Self)
        ensures
            r@ == Seq::<usize>::empty(),
            r.wf(),
    {
        LinkedHashSet { inner: lhm_new() }
    }

    pub fn insert(&mut self, k: usize) -> (r: Option<()>)
        requires
            old(self).wf(),
        ensures
            final(self).wf(),
            final(self)@ == if old(self)@.contains(k) {
                old(self)@
            } else {
                old(self)@.push(k)
            },
            r == if old(self)@.contains(k) {
                Some(())
            } else {
                None::<()>
            },
    {
        if lhm_contains(&self.inner, k) {
            Some(())
        } else {
            lhm_insert(&mut self.inner, k);
            None
        }
    }

    pub fn contains(&self, k: usize) -> (r: bool)
        ensures
            r == self@.contains(k),
    {
        lhm_contains(&self.inner, k)
    }

    pub fn remove(&mut self, k: usize) -> (r: Option<()>)
        requires
            old(self).wf(),
        ensures
            final(self).wf(),
            final(self)@ == old(self)@.filter(|x: usize| x != k),
            r == if old(self)@.contains(k) {
                Some(())
            } else {
                None::<()>
            },
    {
        let r = lhm_remove(&mut self.inner, k);
        proof {
            lemma_filter_no_duplicates(old(self)@, |x: usize| x != k);
        }
        r
    }

    /// A snapshot of the members in insertion order.
    pub fn iter(&self) -> (r: Vec<usize>)
        ensures
            r@ == self@,
    {
        lhm_keys_vec(&self.inner)
    }

    pub fn is_empty(&self) -> (r: bool)
        ensures
            r == (self@.len() == 0),
    {
        lhm_is_empty(&self.inner)
    }

    pub fn pop_front(&mut self) -> (r: Option<usize>)
        requires
            old(self).wf(),
        ensures
            final(self).wf(),
            match r {
                None => old(self)@.len() == 0 && final(self)@ == old(self)@,
                Some(k) => old(self)@.len() > 0 && k == old(self)@[0] && final(self)@ == old(
                    self,
                )@.drop_first(),
            },
    {
        let r = lhm_pop_front(&mut self.inner);
        proof {
            if old(self)@.len() > 0 {
                assert forall|i: int, j: int|
                    0 <= i < j < old(self)@.drop_first().len() implies old(
                    self,
                )@.drop_first()[i] != old(self)@.drop_first()[j] by {
                    assert(old(self)@.drop_first()[i] == old(self)@[i + 1]);
                    assert(old(self)@.drop_first()[j] == old(self)@[j + 1]);
                }
            }
        }
        match r {
            Some((k, _)) => Some(k),
            None => None,
        }
    }
}

/// A sequence without repetition stays that way after filtering.
proof fn lemma_filter_no_duplicates<A>(s: Seq<A>, p: spec_fn(A) -> bool)
    requires
        s.no_duplicates(),
    ensures
        s.filter(p).no_duplicates(),
    decreases s.len(),
{
    broadcast use vstd::seq_lib::group_filter_ensures;

    reveal(Seq::filter);
    if s.len() != 0 {
        lemma_filter_no_duplicates(s.drop_last(), p);
        if p(s.last()) {
            let dl = s.drop_last();
            assert(!dl.contains(s.last())) by {
                assert(forall|i: int| 0 <= i < dl.len() ==> #[trigger] dl[i] == s[i]);
            }
            assert(!dl.filter(p).contains(s.last())) by {
                if dl.filter(p).contains(s.last()) {
                    dl.lemma_filter_contains_rev(p, s.last());
                }
            }
            let t = dl.filter(p).push(s.last());
            assert(t.no_duplicates()) by {
                assert(forall|i: int, j: int|
                    0 <= i < j < t.len() ==> #[trigger] t[i] != #[trigger] t[j]) by {
                    assert(forall|i: int| 0 <= i < dl.filter(p).len() ==> t[i] == dl.filter(p)[i]);
                    assert(forall|i: int|
                        0 <= i < dl.filter(p).len() ==> dl.filter(p)[i] != s.last()) by {
                        assert(forall|i: int|
                            0 <= i < dl.filter(p).len() ==> dl.filter(p).contains(
                                #[trigger] dl.filter(p)[i],
                            ));
                    }
                }
            }
        }
    }
}

/// Whether a comparator may be called on any pair of values.
pub open spec fn cmp_ok<T, F: Fn(&T, &T) -> Ordering>(f: F) -> bool {
    forall|x: &T, y: &T| #[trigger] call_requires(f, (x, y))
}

/// Whether `leq` is a total order that the comparator decides: every
/// verdict the comparator can return agrees with `leq`, which is
/// transitive and total. The ordering contracts below hold for every
/// such order at once; a comparator that decides none leaves them
/// vacuous.
pub open spec fn cmp_consistent<T, F: Fn(&T, &T) -> Ordering>(
    f: F,
    leq: spec_fn(T, T) -> bool,
) -> bool {
    &&& forall|x: &T, y: &T, o: Ordering| #[trigger]
        call_ensures(f, (x, y), o) ==> match o {
            Ordering::Less => leq(*x, *y) && !leq(*y, *x),
            Ordering::Equal => leq(*x, *y) && leq(*y, *x),
            Ordering::Greater => leq(*y, *x) && !leq(*x, *y),
        }
    &&& forall|a: T, b: T, c: T| #[trigger] leq(a, b) && #[trigger] leq(b, c) ==> leq(a, c)
    &&& forall|a: T, b: T| #[trigger] leq(a, b) || #[trigger] leq(b, a)
}

/// Position `i` holds a minimum of the first `k` elements under
/// `leq`.
pub open spec fn is_min_upto<T>(s: Seq<T>, leq: spec_fn(T, T) -> bool, i: int, k: int) -> bool {
    0 <= i < k <= s.len() && forall|j: int| 0 <= j < k ==> leq(s[i], #[trigger] s[j])
}

/// Position `i` holds the first minimum of the first `k` elements
/// under `leq`.
pub open spec fn first_min_upto<T>(s: Seq<T>, leq: spec_fn(T, T) -> bool, i: int, k: int) -> bool {
    is_min_upto(s, leq, i, k) && forall|t: int|
        0 <= t < i ==> !(#[trigger] is_min_upto(s, leq, t, k))
}

/// Position `i` holds the first minimum of the store under `leq`:
/// the position `peek` reports and `pop` removes.
pub open spec fn is_first_min<T>(s: Seq<T>, leq: spec_fn(T, T) -> bool, i: int) -> bool {
    first_min_upto(s, leq, i, s.len() as int)
}

/// A priority queue over a caller-supplied comparator, backed by a
/// vector: `push` appends, and `pop` extracts an element the
/// comparator judged least at that moment.
pub struct ComparatorHeap<'a, T, F: Fn(&T, &T) -> Ordering> {
    pub compare: &'a F,
    pub heap: Vec<T>,
}

impl<'a, T, F: Fn(&T, &T) -> Ordering> View for ComparatorHeap<'a, T, F> {
    type V = Seq<T>;

    open spec fn view(&self) -> Seq<T> {
        self.heap@
    }
}

impl<'a, T, F: Fn(&T, &T) -> Ordering> ComparatorHeap<'a, T, F> {
    pub fn new(cmp: &'a F) -> (r: Self)
        ensures
            r@ == Seq::<T>::empty(),
            r.compare == cmp,
    {
        ComparatorHeap { compare: cmp, heap: Vec::new() }
    }

    pub fn with_capacity(cmp: &'a F, capacity: usize) -> (r: Self)
        ensures
            r@ == Seq::<T>::empty(),
            r.compare == cmp,
    {
        ComparatorHeap { compare: cmp, heap: Vec::with_capacity(capacity) }
    }

    pub fn reserve(&mut self, n: usize)
        ensures
            final(self)@ == old(self)@,
            final(self).compare == old(self).compare,
    {
        self.heap.reserve(n);
    }

    /// The index of an element the comparator judges least: under any
    /// total order the comparator decides, the element there is a
    /// lower bound of the whole store.
    fn least_index(&self) -> (r: usize)
        requires
            cmp_ok::<T, F>(*self.compare),
            self@.len() > 0,
        ensures
            r < self@.len(),
            forall|leq: spec_fn(T, T) -> bool| #[trigger]
                cmp_consistent::<T, F>(*self.compare, leq) ==> is_first_min(
                    self@,
                    leq,
                    r as int,
                ),
            forall|leq: spec_fn(T, T) -> bool| #[trigger]
                cmp_consistent::<T, F>(*self.compare, leq) ==> forall|t: int|
                    0 <= t < self@.len() ==> leq(self@[r as int], #[trigger] self@[t]),
    {
        let mut mi: usize = 0;
        let n = self.heap.len();
        proof {
            assert forall|leq: spec_fn(T, T) -> bool| #[trigger]
                cmp_consistent::<T, F>(*self.compare, leq) implies first_min_upto(
                self@,
                leq,
                0,
                1,
            ) by {
                assert(leq(self@[0], self@[0]) || leq(self@[0], self@[0]));
                assert(is_min_upto(self@, leq, 0, 1));
            }
        }
        for k in 1..n
            invariant
                n == self@.len(),
                mi < k,
                cmp_ok::<T, F>(*self.compare),
                forall|leq: spec_fn(T, T) -> bool| #[trigger]
                    cmp_consistent::<T, F>(*self.compare, leq) ==> first_min_upto(
                        self@,
                        leq,
                        mi as int,
                        k as int,
                    ),
        {
            let ghost mi0 = mi as int;
            let c = (self.compare)(&self.heap[k], &self.heap[mi]);
            if matches!(c, Ordering::Less) {
                mi = k;
            }
            proof {
                assert forall|leq: spec_fn(T, T) -> bool| #[trigger]
                    cmp_consistent::<T, F>(*self.compare, leq) implies first_min_upto(
                    self@,
                    leq,
                    mi as int,
                    k + 1 as int,
                ) by {
                    assert(first_min_upto(self@, leq, mi0, k as int));
                    assert(is_min_upto(self@, leq, mi0, k as int));
                    let vk = self@[k as int];
                    let vm = self@[mi0];
                    if c == Ordering::Less {
                        assert(leq(vk, vm) && !leq(vm, vk));
                        assert forall|j: int| 0 <= j < k + 1 implies leq(
                            vk,
                            #[trigger] self@[j],
                        ) by {
                            if j < k {
                                assert(leq(vm, self@[j]));
                            } else {
                                assert(leq(vk, vk) || leq(vk, vk));
                            }
                        }
                        assert forall|t: int| 0 <= t < k implies !(#[trigger] is_min_upto(
                            self@,
                            leq,
                            t,
                            k + 1 as int,
                        )) by {
                            if t < mi0 {
                                assert(!is_min_upto(self@, leq, t, k as int));
                                if is_min_upto(self@, leq, t, k + 1 as int) {
                                    assert(forall|j: int|
                                        0 <= j < k ==> leq(self@[t], #[trigger] self@[j]));
                                }
                            } else if t == mi0 {
                                assert(!leq(vm, vk));
                            } else {
                                if is_min_upto(self@, leq, t, k + 1 as int) {
                                    assert(leq(self@[t], vk));
                                    assert(leq(vm, self@[t]));
                                    assert(leq(vm, vk));
                                }
                            }
                        }
                    } else {
                        assert(leq(vm, vk));
                        assert forall|j: int| 0 <= j < k + 1 implies leq(
                            vm,
                            #[trigger] self@[j],
                        ) by {
                            if j < k {
                                assert(leq(vm, self@[j]));
                            }
                        }
                        assert forall|t: int| 0 <= t < mi0 implies !(#[trigger] is_min_upto(
                            self@,
                            leq,
                            t,
                            k + 1 as int,
                        )) by {
                            assert(!is_min_upto(self@, leq, t, k as int));
                            if is_min_upto(self@, leq, t, k + 1 as int) {
                                assert(forall|j: int|
                                    0 <= j < k ==> leq(self@[t], #[trigger] self@[j]));
                            }
                        }
                    }
                }
            }
        }
        proof {
            assert forall|leq: spec_fn(T, T) -> bool| #[trigger]
                cmp_consistent::<T, F>(*self.compare, leq) implies is_first_min(
                self@,
                leq,
                mi as int,
            ) && (forall|t: int|
                0 <= t < self@.len() ==> leq(self@[mi as int], #[trigger] self@[t])) by {
                assert(first_min_upto(self@, leq, mi as int, n as int));
                assert(is_min_upto(self@, leq, mi as int, n as int));
            }
        }
        mi
    }

    /// A reference to an element the comparator judges least: under
    /// any total order the comparator decides, a lower bound of the
    /// whole store.
    pub fn peek(&self) -> (r: Option<&T>)
        requires
            cmp_ok::<T, F>(*self.compare),
        ensures
            match r {
                None => self@.len() == 0,
                Some(x) => (exists|i: int| 0 <= i < self@.len() && *x == self@[i])
                    && forall|leq: spec_fn(T, T) -> bool| #[trigger]
                    cmp_consistent::<T, F>(*self.compare, leq) ==> (exists|i: int|
                        is_first_min(self@, leq, i) && *x == self@[i]) && (forall|t: int|
                        0 <= t < self@.len() ==> leq(*x, #[trigger] self@[t])),
            },
    {
        if self.heap.len() == 0 {
            None
        } else {
            let mi = self.least_index();
            let x = &self.heap[mi];
            proof {
                assert(mi < self@.len());
                assert(*x == self@[mi as int]);
                assert forall|leq: spec_fn(T, T) -> bool| #[trigger]
                    cmp_consistent::<T, F>(*self.compare, leq) implies (exists|i: int|
                        is_first_min(self@, leq, i) && *x == self@[i]) by {
                    assert(is_first_min(self@, leq, mi as int) && *x == self@[mi as int]);
                }
            }
            Some(x)
        }
    }

    pub fn pop(&mut self) -> (r: Option<T>)
        requires
            cmp_ok::<T, F>(*old(self).compare),
        ensures
            final(self).compare == old(self).compare,
            match r {
                None => old(self)@.len() == 0 && final(self)@ == old(self)@,
                Some(x) => old(self)@.len() > 0 && (exists|i: int|
                    0 <= i < old(self)@.len() && x == old(self)@[i] && final(self)@ == old(self)@.remove(
                        i,
                    )) && forall|leq: spec_fn(T, T) -> bool| #[trigger]
                    cmp_consistent::<T, F>(*old(self).compare, leq) ==> (exists|i: int|
                        is_first_min(old(self)@, leq, i) && x == old(self)@[i] && final(self)@
                            == old(self)@.remove(i)) && (forall|t: int|
                        0 <= t < final(self)@.len() ==> leq(x, #[trigger] final(self)@[t])),
            },
    {
        if self.heap.len() == 0 {
            None
        } else {
            let mi = self.least_index();
            let x = self.heap.remove(mi);
            proof {
                assert(mi < old(self)@.len());
                assert(x == old(self)@[mi as int] && self@ == old(self)@.remove(mi as int));
                assert forall|leq: spec_fn(T, T) -> bool| #[trigger]
                    cmp_consistent::<T, F>(*old(self).compare, leq) implies (exists|i: int|
                        is_first_min(old(self)@, leq, i) && x == old(self)@[i] && self@ == old(
                            self,
                        )@.remove(i)) && (forall|t: int|
                        0 <= t < self@.len() ==> leq(x, #[trigger] self@[t])) by {
                    assert(is_first_min(old(self)@, leq, mi as int) && x == old(self)@[mi as int]
                        && self@ == old(self)@.remove(mi as int));
                    assert forall|t: int| 0 <= t < self@.len() implies leq(
                        x,
                        #[trigger] self@[t],
                    ) by {
                        if t < mi {
                            assert(self@[t] == old(self)@[t]);
                            assert(leq(x, old(self)@[t]));
                        } else {
                            assert(self@[t] == old(self)@[t + 1]);
                            assert(leq(x, old(self)@[t + 1]));
                        }
                    }
                }
            }
            Some(x)
        }
    }

    pub fn push(&mut self, item: T)
        ensures
            final(self).compare == old(self).compare,
            final(self)@ == old(self)@.push(item),
    {
        self.heap.push(item);
    }

    pub fn len(&self) -> (r: usize)
        ensures
            r == self@.len(),
    {
        self.heap.len()
    }

    pub fn is_empty(&self) -> (r: bool)
        ensures
            r == (self@.len() == 0),
    {
        self.heap.len() == 0
    }

    pub fn clear(&mut self)
        ensures
            final(self)@ == Seq::<T>::empty(),
            final(self).compare == old(self).compare,
    {
        self.heap.clear();
        proof {
            assert(self@ =~= Seq::<T>::empty());
        }
    }

    /// The elements, in arbitrary order.
    pub fn into_vec(self) -> (r: Vec<T>)
        ensures
            r@ == self@,
    {
        self.heap
    }

    /// The elements, ascending: a permutation of the store that any
    /// total order the comparator decides finds sorted.
    pub fn into_sorted_vec(self) -> (r: Vec<T>)
        requires
            cmp_ok::<T, F>(*self.compare),
        ensures
            r@.to_multiset() == self@.to_multiset(),
            forall|leq: spec_fn(T, T) -> bool| #[trigger]
                cmp_consistent::<T, F>(*self.compare, leq) ==> forall|i: int, j: int|
                    0 <= i < j < r@.len() ==> leq(#[trigger] r@[i], #[trigger] r@[j]),
    {
        let mut q = self;
        let mut out: Vec<T> = Vec::new();
        let ghost total = q@.to_multiset();
        let ghost cmp0 = *self.compare;
        proof {
            broadcast use vstd::seq_lib::group_to_multiset_ensures;

            assert(out@.to_multiset().add(q@.to_multiset()) =~= total);
        }
        loop
            invariant
                cmp_ok::<T, F>(*q.compare),
                *q.compare == cmp0,
                out@.to_multiset().add(q@.to_multiset()) == total,
                forall|leq: spec_fn(T, T) -> bool| #[trigger]
                    cmp_consistent::<T, F>(cmp0, leq) ==> (forall|i: int, j: int|
                        0 <= i < j < out@.len() ==> leq(#[trigger] out@[i], #[trigger] out@[j]))
                        && (forall|i: int, t: int|
                        0 <= i < out@.len() && 0 <= t < q@.len() ==> leq(
                            #[trigger] out@[i],
                            #[trigger] q@[t],
                        )),
            ensures
                out@.to_multiset().add(q@.to_multiset()) == total,
                q@.len() == 0,
                forall|leq: spec_fn(T, T) -> bool| #[trigger]
                    cmp_consistent::<T, F>(cmp0, leq) ==> forall|i: int, j: int|
                        0 <= i < j < out@.len() ==> leq(#[trigger] out@[i], #[trigger] out@[j]),
            decreases q@.len(),
        {
            let ghost out0 = out@;
            let ghost q0 = q@;
            match q.pop() {
                Some(x) => {
                    out.push(x);
                    proof {
                        broadcast use vstd::seq_lib::group_to_multiset_ensures;
                        broadcast use vstd::multiset::group_multiset_axioms;

                        let i = choose|i: int|
                            0 <= i < q0.len() && x == q0[i] && q@ == q0.remove(i);
                        assert(q0.contains(x));
                        assert(q0.to_multiset().count(x) > 0);
                        assert(out@ == out0.push(x));
                        assert(q@.to_multiset() == q0.to_multiset().remove(x));
                        assert(out@.to_multiset().add(q@.to_multiset()) =~= total);
                        assert forall|leq: spec_fn(T, T) -> bool| #[trigger]
                            cmp_consistent::<T, F>(cmp0, leq) implies (forall|a: int, b: int|
                                0 <= a < b < out@.len() ==> leq(
                                    #[trigger] out@[a],
                                    #[trigger] out@[b],
                                )) && (forall|a: int, t: int|
                                0 <= a < out@.len() && 0 <= t < q@.len() ==> leq(
                                    #[trigger] out@[a],
                                    #[trigger] q@[t],
                                )) by {
                            assert forall|a: int, b: int|
                                0 <= a < b < out@.len() implies leq(
                                #[trigger] out@[a],
                                #[trigger] out@[b],
                            ) by {
                                if b < out0.len() {
                                    assert(out@[a] == out0[a] && out@[b] == out0[b]);
                                    assert(leq(out0[a], out0[b]));
                                } else {
                                    assert(out@[b] == x);
                                    assert(out@[a] == out0[a]);
                                    assert(leq(out0[a], q0[i]));
                                }
                            }
                            assert forall|a: int, t: int|
                                0 <= a < out@.len() && 0 <= t < q@.len() implies leq(
                                #[trigger] out@[a],
                                #[trigger] q@[t],
                            ) by {
                                if a < out0.len() {
                                    assert(out@[a] == out0[a]);
                                    if t < i {
                                        assert(q@[t] == q0[t]);
                                        assert(leq(out0[a], q0[t]));
                                    } else {
                                        assert(q@[t] == q0[t + 1]);
                                        assert(leq(out0[a], q0[t + 1]));
                                    }
                                } else {
                                    assert(out@[a] == x);
                                    assert(leq(x, q@[t]));
                                }
                            }
                        }
                    }
                },
                None => {
                    break ;
                },
            }
        }
        proof {
            broadcast use vstd::seq_lib::group_to_multiset_ensures;
            broadcast use vstd::multiset::group_multiset_axioms;
            broadcast use vstd::multiset::group_multiset_properties;

            assert(q@.to_multiset() =~= Multiset::empty()) by {
                assert(q@.to_multiset().len() == 0);
                assert(forall|y: T| #[trigger] q@.to_multiset().count(y) == 0) by {
                    assert(forall|y: T|
                        q@.to_multiset().count(y) > 0 ==> #[trigger] q@.contains(y));
                }
            }
            assert(out@.to_multiset() =~= total);
        }
        out
    }
}

} // verus!
