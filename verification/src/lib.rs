//! A ledger of quantities by price: one side of a depth table, where each
//! price level owns an ordered list of sizes with their tags.
//!
//! [`optimized_vec::OptimizedVec`] is a growable sequence with cheap removal
//! from its front. [`Store`] is the ledger built on it: levels in ascending
//! order of price, with sorted insertion, appending to a level, and
//! [`Store::split`], which carves a requested volume off the cheapest levels.
//! [`ledger`] holds what a store means as plain values, and what is true of a
//! split; [`order`] holds how keys are compared.

pub mod ledger;
pub mod optimized_vec;
pub mod order;
pub mod store;

pub use store::Store;
use vstd::prelude::*;

verus! {

/// The price of a level.
pub type Price = i32;

/// The quantity that is left in a slot.
pub type Size = u32;

/// A tag that is carried with a size and never looked into.
pub type Meta = u128;

/// The sequence that the store keeps its data in.
pub type Container<T> = optimized_vec::OptimizedVec<T>;

/// The slots of one price, in the order in which they are consumed.
pub type SizeMetaList = Container<(Size, Meta)>;

/// The levels of a store: each a price and the slots of that price.
pub type StoreInner = Container<(Price, Container<(Size, Meta)>)>;

} // verus!
