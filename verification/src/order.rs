use std::cmp::Ordering;
use vstd::prelude::*;
use vstd::std_specs::cmp::{OrdSpec, PartialEqSpec, PartialOrdSpec};

verus! {

/// Where one key stands relative to another.
#[derive(Clone, Copy, PartialEq, Eq, Structural, Debug)]
pub enum Rank {
    Before,
    Same,
    After,
}

/// Where `a` stands relative to `b` in the order of `B`.
pub open spec fn rank_of<B: Ord>(a: B, b: B) -> Rank {
    match a.cmp_spec(&b) {
        Ordering::Less => Rank::Before,
        Ordering::Equal => Rank::Same,
        Ordering::Greater => Rank::After,
    }
}

/// The comparison of `B` returns what its model, `cmp_spec`, gives.
pub open spec fn faithful<B: Ord>() -> bool {
    B::obeys_cmp_spec()
}

/// The comparisons of `B` form a total order, and each returns what its model
/// gives.
pub open spec fn lawful<B: Ord>() -> bool {
    vstd::laws_cmp::obeys_cmp::<B>()
}

/// Compares two keys.
pub fn rank<B: Ord>(a: &B, b: &B) -> (r: Rank)
    ensures
        faithful::<B>() ==> r == rank_of(*a, *b),
{
    match a.cmp(b) {
        Ordering::Less => Rank::Before,
        Ordering::Equal => Rank::Same,
        Ordering::Greater => Rank::After,
    }
}

/// A lawful order is faithful.
pub proof fn lemma_lawful_faithful<B: Ord>()
    requires
        lawful::<B>(),
    ensures
        faithful::<B>(),
{
    reveal(vstd::laws_cmp::obeys_cmp_ord);
}

/// In a lawful order, `x` is before `y` exactly when `y` is after `x`, and
/// being the same is symmetric.
pub proof fn lemma_rank_mirror<B: Ord>(x: B, y: B)
    requires
        lawful::<B>(),
    ensures
        rank_of(x, y) == Rank::Before <==> rank_of(y, x) == Rank::After,
        rank_of(x, y) == Rank::Same <==> rank_of(y, x) == Rank::Same,
{
    reveal(vstd::laws_cmp::obeys_cmp_ord);
    reveal(vstd::laws_cmp::obeys_cmp_partial_ord);
    reveal(vstd::laws_cmp::obeys_partial_cmp_spec_properties);
    reveal(vstd::laws_eq::obeys_eq_spec_properties);
    assert(x.partial_cmp_spec(&y) == Some(x.cmp_spec(&y)));
    assert(y.partial_cmp_spec(&x) == Some(y.cmp_spec(&x)));
}

/// In a lawful order, being the same is transitive.
pub proof fn lemma_rank_same_chain<B: Ord>(x: B, y: B, z: B)
    requires
        lawful::<B>(),
        rank_of(x, y) == Rank::Same,
        rank_of(y, z) == Rank::Same,
    ensures
        rank_of(x, z) == Rank::Same,
{
    reveal(vstd::laws_cmp::obeys_cmp_ord);
    reveal(vstd::laws_cmp::obeys_cmp_partial_ord);
    reveal(vstd::laws_cmp::obeys_partial_cmp_spec_properties);
    reveal(vstd::laws_eq::obeys_eq_spec_properties);
    assert(x.partial_cmp_spec(&y) == Some(x.cmp_spec(&y)));
    assert(y.partial_cmp_spec(&z) == Some(y.cmp_spec(&z)));
    assert(x.partial_cmp_spec(&z) == Some(x.cmp_spec(&z)));
    assert(x.eq_spec(&y));
    assert(y.eq_spec(&z));
    assert(x.eq_spec(&z));
}

/// In a lawful order, what is before `y` is before all that `y` is before.
pub proof fn lemma_rank_before_chain<B: Ord>(x: B, y: B, z: B)
    requires
        lawful::<B>(),
        rank_of(x, y) == Rank::Before,
        rank_of(y, z) == Rank::Before,
    ensures
        rank_of(x, z) == Rank::Before,
{
    reveal(vstd::laws_cmp::obeys_cmp_ord);
    reveal(vstd::laws_cmp::obeys_partial_cmp_spec_properties);
    assert(x.partial_cmp_spec(&y) == Some(x.cmp_spec(&y)));
    assert(y.partial_cmp_spec(&z) == Some(y.cmp_spec(&z)));
    assert(x.partial_cmp_spec(&z) == Some(x.cmp_spec(&z)));
}

/// In a lawful order, `x` not after `y` and `y` before `z` put `x` before `z`.
pub proof fn lemma_rank_upto_then_before<B: Ord>(x: B, y: B, z: B)
    requires
        lawful::<B>(),
        rank_of(x, y) != Rank::After,
        rank_of(y, z) == Rank::Before,
    ensures
        rank_of(x, z) == Rank::Before,
{
    if rank_of(x, y) == Rank::Before {
        lemma_rank_before_chain(x, y, z);
    } else {
        // x is the same as y
        lemma_rank_mirror(x, y);
        match rank_of(x, z) {
            Rank::Before => {},
            Rank::Same => {
                lemma_rank_same_chain(y, x, z);
            },
            Rank::After => {
                lemma_rank_mirror(x, z);
                lemma_rank_before_chain(y, z, x);
            },
        }
    }
}

/// In a lawful order, `x` before `y` and `y` not after `z` put `x` before `z`.
pub proof fn lemma_rank_before_then_upto<B: Ord>(x: B, y: B, z: B)
    requires
        lawful::<B>(),
        rank_of(x, y) == Rank::Before,
        rank_of(y, z) != Rank::After,
    ensures
        rank_of(x, z) == Rank::Before,
{
    if rank_of(y, z) == Rank::Before {
        lemma_rank_before_chain(x, y, z);
    } else {
        // y is the same as z
        lemma_rank_mirror(y, z);
        match rank_of(x, z) {
            Rank::Before => {},
            Rank::Same => {
                lemma_rank_same_chain(x, z, y);
            },
            Rank::After => {
                lemma_rank_mirror(x, z);
                lemma_rank_before_chain(z, x, y);
            },
        }
    }
}

/// The order of the 32-bit signed integers is lawful.
pub proof fn lemma_i32_lawful()
    ensures
        lawful::<i32>(),
        faithful::<i32>(),
{
    broadcast use vstd::laws_cmp::group_laws_cmp;

}

} // verus!

