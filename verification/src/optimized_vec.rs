use crate::order::{
    faithful, lawful, lemma_lawful_faithful, lemma_rank_before_then_upto, lemma_rank_mirror,
    lemma_rank_upto_then_before, rank, rank_of, Rank,
};
use std::ops::Index;
use vstd::pervasive::runtime_assert;
use vstd::prelude::*;
use vstd::std_specs::cmp::{PartialEqSpec, PartialEqSpecImpl};
use vstd::std_specs::convert::FromSpecImpl;
use vstd::std_specs::iter::IteratorSpec;

verus! {

/// A growable sequence that removes from its front by moving a start offset
/// instead of shifting the elements that follow.
///
/// The elements live in `inner`; the first `first` of them are slack: removed
/// from the sequence, but still in storage until the slot is reused.
pub struct OptimizedVec<T> {
    first: usize,
    inner: Vec<T>,
}

impl<T> View for OptimizedVec<T> {
    type V = Seq<T>;

    /// The live elements, in order: the backing storage without its slack.
    open spec fn view(&self) -> Seq<T> {
        self.storage().skip(self.slack() as int)
    }
}

/// Whatever `f` returns for an element is what `key` says of it.
pub open spec fn computes_key<'a, T: 'a, B, F: Fn(&'a T) -> B>(f: F, key: spec_fn(T) -> B) -> bool {
    forall|x: &'a T, k: B| call_ensures(f, (x,), k) ==> k == key(*x)
}

/// The keys of the elements of `s` never go down.
pub open spec fn sorted_by_key<T, B: Ord>(s: Seq<T>, key: spec_fn(T) -> B) -> bool {
    forall|i: int, j: int|
        0 <= i <= j < s.len() ==> rank_of(key(#[trigger] s[i]), key(#[trigger] s[j])) != Rank::After
}

/// The keys of the first `n` elements of `s` are before `b`, and those of
/// the others are after it.
pub open spec fn parted_by_key<T, B: Ord>(s: Seq<T>, key: spec_fn(T) -> B, b: B, n: int) -> bool {
    &&& forall|j: int| 0 <= j < n ==> rank_of(key(#[trigger] s[j]), b) == Rank::Before
    &&& forall|j: int| n <= j < s.len() ==> rank_of(key(#[trigger] s[j]), b) == Rank::After
}

/// What a search for the key `b` in `s` owes: `Ok` with the position of an
/// element whose key is the same as `b`, or, of a sequence sorted by key,
/// `Err` with the position that parts the keys before `b` from those after it.
pub open spec fn search_outcome<T, B: Ord>(
    s: Seq<T>,
    key: spec_fn(T) -> B,
    b: B,
    r: Result<usize, usize>,
) -> bool {
    match r {
        Ok(i) => i < s.len() && (faithful::<B>() ==> rank_of(key(s[i as int]), b) == Rank::Same),
        Err(i) => i <= s.len() && (lawful::<B>() && sorted_by_key(s, key) ==> parted_by_key(
            s,
            key,
            b,
            i as int,
        )),
    }
}

/// In a sequence sorted by key, a search that kept its word finds the key
/// wherever an element has it: it ends in `Err` only where no key is the same
/// as `b`.
pub proof fn lemma_search_finds<T, B: Ord>(
    s: Seq<T>,
    key: spec_fn(T) -> B,
    b: B,
    r: Result<usize, usize>,
)
    requires
        lawful::<B>(),
        sorted_by_key(s, key),
        search_outcome(s, key, b, r),
    ensures
        r is Ok <==> exists|j: int| 0 <= j < s.len() && rank_of(key(#[trigger] s[j]), b) == Rank::Same,
{
    lemma_lawful_faithful::<B>();
    match r {
        Ok(i) => {
            assert(rank_of(key(s[i as int]), b) == Rank::Same);
        },
        Err(i) => {
            assert forall|j: int| 0 <= j < s.len() implies rank_of(key(#[trigger] s[j]), b)
                != Rank::Same by {
                if j < i {
                    assert(rank_of(key(s[j]), b) == Rank::Before);
                } else {
                    assert(rank_of(key(s[j]), b) == Rank::After);
                }
            }
        },
    }
}

impl<T> OptimizedVec<T> {
    /// The slack is a part of the storage.
    #[verifier::type_invariant]
    spec fn inv(&self) -> bool {
        self.first <= self.inner.len()
    }

    /// Everything in storage, slack included.
    pub closed spec fn storage(&self) -> Seq<T> {
        self.inner@
    }

    /// How many leading positions of the storage are slack.
    pub closed spec fn spec_slack(&self) -> usize {
        self.first
    }

    /// Moves the storage out and leaves an empty sequence behind, so that the
    /// storage can be changed by calls that may unwind.
    fn take_storage(&mut self) -> (parts: (usize, Vec<T>))
        ensures
            parts.0 == old(self).first,
            parts.1 == old(self).inner,
            parts.0 <= parts.1.len(),
            final(self).first == 0,
            final(self).inner@.len() == 0,
    {
        proof {
            use_type_invariant(&*self);
        }
        let first = self.first;
        let mut inner = Vec::new();
        self.first = 0;
        std::mem::swap(&mut self.inner, &mut inner);
        (first, inner)
    }

    /// Puts a storage and its offset back.
    fn put_storage(&mut self, first: usize, inner: Vec<T>)
        requires
            first <= inner.len(),
        ensures
            final(self).first == first,
            final(self).inner == inner,
    {
        self.first = 0;
        self.inner = inner;
        self.first = first;
    }

    /// An empty sequence.
    pub fn new() -> (v: Self)
        ensures
            v.slack() == 0,
            v.storage() == Seq::<T>::empty(),
            v@ == Seq::<T>::empty(),
    {
        OptimizedVec { first: 0, inner: Vec::new() }
    }

    /// An empty sequence with room for `cap` elements.
    pub fn with_capacity(cap: usize) -> (v: Self)
        ensures
            v.slack() == 0,
            v.storage() == Seq::<T>::empty(),
            v@ == Seq::<T>::empty(),
    {
        OptimizedVec { first: 0, inner: Vec::with_capacity(cap) }
    }

    /// Appends `value` behind the last element.
    pub fn push(&mut self, value: T)
        ensures
            final(self)@ == old(self)@.push(value),
            final(self).slack() == old(self).slack(),
            final(self).storage() == old(self).storage().push(value),
    {
        let (first, mut inner) = self.take_storage();
        inner.push(value);
        self.put_storage(first, inner);
    }

    /// Inserts `value` at position `idx`. At the front, a slack slot is reused
    /// when there is one, and nothing is shifted.
    pub fn insert(&mut self, idx: usize, value: T)
        requires
            idx <= old(self)@.len(),
        ensures
            final(self)@ == old(self)@.insert(idx as int, value),
            idx == 0 && old(self).slack() > 0 ==> {
                &&& final(self).slack() == old(self).slack() - 1
                &&& final(self).storage() == old(self).storage().update(
                    old(self).slack() - 1,
                    value,
                )
            },
            !(idx == 0 && old(self).slack() > 0) ==> {
                &&& final(self).slack() == old(self).slack()
                &&& final(self).storage() == old(self).storage().insert(
                    old(self).slack() + idx,
                    value,
                )
            },
    {
        let (first, mut inner) = self.take_storage();
        if idx == 0 && first != 0 {
            inner[first - 1] = value;
            self.put_storage(first - 1, inner);
        } else {
            inner.insert(first + idx, value);
            self.put_storage(first, inner);
        }
    }

    /// Removes the element at position `idx`. At the front, the element's slot
    /// becomes slack and nothing is shifted.
    pub fn remove(&mut self, idx: usize)
        requires
            idx < old(self)@.len(),
        ensures
            final(self)@ == old(self)@.remove(idx as int),
            idx == 0 ==> {
                &&& final(self).slack() == old(self).slack() + 1
                &&& final(self).storage() == old(self).storage()
            },
            idx != 0 ==> {
                &&& final(self).slack() == old(self).slack()
                &&& final(self).storage() == old(self).storage().remove(old(self).slack() + idx)
            },
    {
        runtime_assert(self.len() != 0);
        let (first, mut inner) = self.take_storage();
        if idx == 0 {
            self.put_storage(first + 1, inner);
        } else {
            inner.remove(first + idx);
            self.put_storage(first, inner);
        }
    }

    /// Searches for an element whose key is `b`, in a sequence sorted by key.
    ///
    /// `Ok` holds the position of an element with that key, any one of them
    /// where there are several. `Err` holds the position at which an element
    /// with that key can be inserted and the sequence stays sorted. The keys
    /// are those of any `key` that describes what `f` returns.
    pub fn binary_search_by_key<'a, B, F>(&'a self, b: &B, f: F) -> (r: Result<usize, usize>) where
        F: Fn(&'a T) -> B,
        B: Ord,

        requires
            forall|i: int| 0 <= i < self@.len() ==> call_requires(f, (&self@[i],)),
        ensures
            match r {
                Ok(i) => i < self@.len(),
                Err(i) => i <= self@.len(),
            },
            forall|key: spec_fn(T) -> B| #[trigger]
                computes_key(f, key) ==> search_outcome(self@, key, *b, r),
    {
        let mut lo: usize = 0;
        let mut hi: usize = self.len();
        while lo < hi
            invariant
                lo <= hi <= self@.len(),
                forall|i: int| 0 <= i < self@.len() ==> call_requires(f, (&self@[i],)),
                forall|key: spec_fn(T) -> B| #[trigger]
                    computes_key(f, key) && lawful::<B>() && sorted_by_key(self@, key) ==> {
                        &&& forall|j: int|
                            0 <= j < lo ==> rank_of(key(#[trigger] self@[j]), *b) == Rank::Before
                        &&& forall|j: int|
                            hi <= j < self@.len() ==> rank_of(key(#[trigger] self@[j]), *b)
                                == Rank::After
                    },
            decreases hi - lo,
        {
            let mid = lo + (hi - lo) / 2;
            let probe = f(self.get(mid));
            let found = rank(&probe, b);
            proof {
                assert forall|key: spec_fn(T) -> B| #[trigger]
                    computes_key(f, key) && lawful::<B>() && sorted_by_key(self@, key) implies {
                    &&& found == Rank::Before ==> forall|j: int|
                        0 <= j < mid + 1 ==> rank_of(key(#[trigger] self@[j]), *b) == Rank::Before
                    &&& found == Rank::After ==> forall|j: int|
                        mid <= j < self@.len() ==> rank_of(key(#[trigger] self@[j]), *b)
                            == Rank::After
                } by {
                    lemma_lawful_faithful::<B>();
                    assert(probe == key(self@[mid as int]));
                    if found == Rank::Before {
                        assert forall|j: int| 0 <= j < mid + 1 implies rank_of(
                            key(#[trigger] self@[j]),
                            *b,
                        ) == Rank::Before by {
                            lemma_rank_upto_then_before(key(self@[j]), probe, *b);
                        }
                    }
                    if found == Rank::After {
                        assert forall|j: int| mid <= j < self@.len() implies rank_of(
                            key(#[trigger] self@[j]),
                            *b,
                        ) == Rank::After by {
                            lemma_rank_mirror(probe, *b);
                            lemma_rank_before_then_upto(*b, probe, key(self@[j]));
                            lemma_rank_mirror(*b, key(self@[j]));
                        }
                    }
                }
            }
            match found {
                Rank::Before => {
                    lo = mid + 1;
                },
                Rank::Same => {
                    return Ok(mid);
                },
                Rank::After => {
                    hi = mid;
                },
            }
        }
        Err(lo)
    }

    /// The element at position `idx`.
    pub fn get(&self, idx: usize) -> (elem: &T)
        requires
            idx < self@.len(),
        ensures
            *elem == self@[idx as int],
    {
        proof {
            use_type_invariant(self);
        }
        &self.inner[idx + self.first]
    }

    /// The element at position `idx`, to be changed in place.
    pub fn get_mut(&mut self, idx: usize) -> (elem: &mut T)
        requires
            idx < old(self)@.len(),
        ensures
            *elem == old(self)@[idx as int],
            final(self)@ == old(self)@.update(idx as int, *final(elem)),
            final(self).slack() == old(self).slack(),
            final(self).storage() == old(self).storage().update(
                old(self).slack() + idx,
                *final(elem),
            ),
    {
        proof {
            use_type_invariant(&*self);
        }
        let at = idx + self.first;
        &mut self.inner[at]
    }

    /// Walks the live elements in order. The slack is not seen.
    pub fn iter(&self) -> (it: std::slice::Iter<'_, T>)
        ensures
            IteratorSpec::remaining(&it) == self@.as_ref(),
            IteratorSpec::decrease(&it) is Some,
            IteratorSpec::initial_value_relation(&it, &it),
    {
        proof {
            use_type_invariant(self);
            broadcast use vstd::std_specs::slice::axiom_spec_slice_iter;

        }
        let live = &self.inner.as_slice()[self.first..self.inner.len()];
        assert(live@ == self@);
        live.iter()
    }

    /// The number of slack positions at the front of the storage.
    #[verifier::when_used_as_spec(spec_slack)]
    pub fn slack(&self) -> (n: usize)
        ensures
            n == self.slack(),
    {
        self.first
    }

    /// The number of elements in storage, slack included.
    pub fn storage_len(&self) -> (n: usize)
        ensures
            n == self.storage().len(),
    {
        self.inner.len()
    }

    /// The number of live elements.
    pub fn len(&self) -> (n: usize)
        ensures
            n == self@.len(),
            n == self.storage().len() - self.slack(),
    {
        proof {
            use_type_invariant(self);
        }
        self.inner.len() - self.first
    }

    /// Whether there is no live element.
    pub fn is_empty(&self) -> (b: bool)
        ensures
            b == (self@.len() == 0),
    {
        self.len() == 0
    }
}

impl<T> FromSpecImpl<Vec<T>> for OptimizedVec<T> {
    open spec fn obeys_from_spec() -> bool {
        true
    }

    closed spec fn from_spec(inner: Vec<T>) -> Self {
        OptimizedVec { first: 0, inner }
    }
}

impl<T> From<Vec<T>> for OptimizedVec<T> {
    /// Takes `inner` as the storage, as it is and without slack.
    fn from(inner: Vec<T>) -> (v: Self)
        ensures
            v.slack() == 0,
            v.storage() == inner@,
            v@ == inner@,
    {
        OptimizedVec { first: 0, inner }
    }
}

impl<T> vstd::std_specs::core::IndexSpecImpl<usize> for OptimizedVec<T> {
    open spec fn index_req(&self, idx: &usize) -> bool {
        *idx < self@.len()
    }
}

impl<T> Index<usize> for OptimizedVec<T> {
    type Output = T;

    fn index(&self, idx: usize) -> (elem: &T)
        ensures
            *elem == self@[idx as int],
    {
        self.get(idx)
    }
}

impl<T: PartialEq> PartialEqSpecImpl for OptimizedVec<T> {
    open spec fn obeys_eq_spec() -> bool {
        T::obeys_eq_spec()
    }

    /// Two sequences are equal when their live elements are, one by one. The
    /// slack does not count.
    open spec fn eq_spec(&self, other: &Self) -> bool {
        &&& self@.len() == other@.len()
        &&& forall|i: int| 0 <= i < self@.len() ==> (#[trigger] self@[i]).eq_spec(&other@[i])
    }
}

impl<T: PartialEq> PartialEq for OptimizedVec<T> {
    fn eq(&self, other: &Self) -> (r: bool) {
        let n = self.len();
        if n != other.len() {
            return false;
        }
        let mut i: usize = 0;
        while i < n
            invariant
                i <= n == self@.len() == other@.len(),
                T::obeys_eq_spec() ==> forall|j: int|
                    0 <= j < i ==> (#[trigger] self@[j]).eq_spec(&other@[j]),
            decreases n - i,
        {
            if *self.get(i) != *other.get(i) {
                return false;
            }
            i += 1;
        }
        true
    }
}

impl<T: Clone> Clone for OptimizedVec<T> {
    /// Clones the storage element by element, slack included.
    fn clone(&self) -> (copy: Self)
        ensures
            copy.slack() == self.slack(),
            copy@.len() == self@.len(),
            forall|i: int| 0 <= i < self@.len() ==> cloned::<T>(#[trigger] self@[i], copy@[i]),
    {
        proof {
            use_type_invariant(self);
        }
        OptimizedVec { first: self.first, inner: self.inner.clone() }
    }
}

impl<T> Default for OptimizedVec<T> {
    fn default() -> (v: Self)
        ensures
            v.slack() == 0,
            v.storage() == Seq::<T>::empty(),
            v@ == Seq::<T>::empty(),
    {
        OptimizedVec::new()
    }
}

} // verus!
