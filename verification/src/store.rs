use crate::ledger::{
    cut_levels, cut_slots, lemma_cut_levels_bounded, lemma_cut_levels_reach,
    lemma_cut_levels_sorted, lemma_cut_levels_tidy, lemma_cut_levels_volume, no_zero_slot, reach,
    sorted, tidy, total_volume, with_level, with_slot, Levels,
};
use crate::optimized_vec::{computes_key, search_outcome};
use crate::order::{lemma_i32_lawful, rank_of, Rank};
use crate::{Container, Meta, Price, Size, SizeMetaList, StoreInner};
use vstd::pervasive::unreached;
use vstd::prelude::*;
use vstd::std_specs::cmp::PartialEqSpec;
use vstd::std_specs::convert::FromSpecImpl;

verus! {

/// The levels that a sequence of stored levels stands for.
pub open spec fn levels_of(inner: Seq<(Price, SizeMetaList)>) -> Levels {
    inner.map_values(|level: (Price, SizeMetaList)| (level.0, level.1@))
}

/// A ledger of price levels, kept in ascending order of price. Each level owns
/// the slots of its price, in the order in which they are consumed.
pub struct Store {
    inner: StoreInner,
}

impl View for Store {
    type V = Levels;

    closed spec fn view(&self) -> Levels {
        levels_of(self.inner@)
    }
}

impl Store {
    /// A store without levels.
    pub fn new() -> (store: Self)
        ensures
            store@ == Levels::empty(),
    {
        Store { inner: Container::new() }
    }

    /// The levels as they are stored.
    pub fn levels(&self) -> (inner: &StoreInner)
        ensures
            levels_of(inner@) == self@,
    {
        &self.inner
    }

    /// Inserts a level where its price belongs. Among levels of the same price
    /// its place is not fixed.
    pub fn insert(&mut self, elem: (Price, Container<(Size, Meta)>))
        ensures
            with_level(old(self)@, final(self)@, (elem.0, elem.1@)),
            sorted(old(self)@) ==> sorted(final(self)@),
            tidy(old(self)@) && elem.1@.len() > 0 && no_zero_slot(elem.1@) ==> tidy(final(self)@),
    {
        let ghost level = (elem.0, elem.1@);
        let idx = match self.find_price_idx(elem.0) {
            Ok(idx) => idx,
            Err(idx) => idx,
        };
        self.inner.insert(idx, elem);
        proof {
            assert(self@ == old(self)@.insert(idx as int, level));
        }
    }

    /// Appends a slot to the level of `price`, which the store must hold.
    pub fn append_size_and_meta_to_price(&mut self, price: Price, meta: (Size, Meta))
        requires
            sorted(old(self)@),
            exists|i: int| 0 <= i < old(self)@.len() && old(self)@[i].0 == price,
        ensures
            with_slot(old(self)@, final(self)@, price, meta),
            sorted(final(self)@),
            tidy(old(self)@) && meta.0 > 0 ==> tidy(final(self)@),
    {
        match self.find_price_idx(price) {
            Ok(idx) => {
                let level = self.inner.get_mut(idx);
                level.1.push(meta);
                proof {
                    assert(self@ == old(self)@.update(
                        idx as int,
                        (price, old(self)@[idx as int].1.push(meta)),
                    ));
                }
            },
            Err(_) => {
                unreached()
            },
        }
    }

    /// Takes up to `requested_size` out of the store, from the lowest price on
    /// and from no level whose price is above `max_price`. What was taken is
    /// returned as a store of its own; what was not stays.
    ///
    /// Of a sorted store the result is the cut that `cut_levels` describes. The
    /// clauses after the first two follow from them: both stores are sorted
    /// and tidy, no volume is made or lost, nothing is taken above `max_price`,
    /// and the levels priced above it stay as they are.
    pub fn split(&mut self, max_price: Price, requested_size: Size) -> (taken: Store)
        ensures
            requested_size == 0 ==> final(self)@ == old(self)@ && taken@ == Levels::empty(),
            sorted(old(self)@) ==> {
                &&& final(self)@ == cut_levels(old(self)@, max_price, requested_size).kept
                &&& taken@ == cut_levels(old(self)@, max_price, requested_size).taken
                &&& sorted(final(self)@) && sorted(taken@)
                &&& tidy(taken@) && (tidy(old(self)@) ==> tidy(final(self)@))
                &&& total_volume(final(self)@) + total_volume(taken@) == total_volume(old(self)@)
                &&& forall|i: int| 0 <= i < taken@.len() ==> (#[trigger] taken@[i]).0 <= max_price
                &&& final(self)@ == cut_levels(
                    old(self)@.take(reach(old(self)@, max_price) as int),
                    max_price,
                    requested_size,
                ).kept + old(self)@.skip(reach(old(self)@, max_price) as int)
            },
    {
        let ghost start = self@;
        let ghost ordered = sorted(self@);
        let mut requested = requested_size;
        let len = self.inner.len();
        let mut upper_bound = match self.find_price_idx(max_price) {
            Ok(found) => {
                // levels of the same price may follow the one that was found
                let mut end = found + 1;
                while end < len && self.inner[end].0 <= max_price
                    invariant
                        found < end <= len == start.len(),
                        self@ == start,
                        start[found as int].0 == max_price,
                        forall|j: int| found <= j < end ==> start[j].0 <= max_price,
                    decreases len - end,
                {
                    end += 1;
                }
                proof {
                    if ordered {
                        assert forall|j: int| 0 <= j < end implies start[j].0 <= max_price by {
                            if j < found {
                                assert(start[j].0 <= start[found as int].0);
                            }
                        }
                        assert forall|j: int| end <= j < start.len() implies start[j].0
                            > max_price by {
                            assert(start[end as int].0 <= start[j].0);
                        }
                    }
                }
                end
            },
            Err(idx) => idx,
        };
        let mut new: StoreInner = Container::with_capacity(len);
        let mut idx: usize = 0;
        proof {
            assert(self@.skip(0) == self@);
            assert(self@.take(0) + self@ == self@);
            assert(levels_of(new@) + cut_levels(self@, max_price, requested).taken == cut_levels(
                self@,
                max_price,
                requested,
            ).taken);
        }
        while idx < upper_bound && requested != 0
            invariant
                idx <= upper_bound <= self.inner@.len(),
                requested_size == 0 ==> self@ == start && new@ == Seq::<(Price, SizeMetaList)>::empty(),
                requested_size == 0 ==> requested == 0,
                ordered ==> {
                    &&& forall|j: int| 0 <= j < upper_bound ==> self@[j].0 <= max_price
                    &&& forall|j: int| upper_bound <= j < self@.len() ==> self@[j].0 > max_price
                    &&& cut_levels(start, max_price, requested_size).taken == levels_of(new@)
                        + cut_levels(self@.skip(idx as int), max_price, requested).taken
                    &&& cut_levels(start, max_price, requested_size).kept == self@.take(idx as int)
                        + cut_levels(self@.skip(idx as int), max_price, requested).kept
                },
            decreases upper_bound - idx,
        {
            let ghost before = self@;
            let ghost at = idx as int;
            let ghost gathered = levels_of(new@);
            let ghost budget = requested;
            let level = self.inner.get_mut(idx);
            let price = level.0;
            let (drained, new_sizes, left) = Self::split_sizes(&mut level.1, requested);
            let ghost moved = new_sizes@;
            if !new_sizes.is_empty() {
                new.push((price, new_sizes));
            }
            requested = left;
            if drained {
                self.inner.remove(idx);
                upper_bound -= 1;
            } else {
                idx += 1;
            }
            proof {
                if ordered {
                    // the cut of the levels ahead, unfolded by the level that was just cut
                    let ahead = before.skip(at);
                    let cut = cut_slots(before[at].1, budget);
                    let rest = cut_levels(ahead.drop_first(), max_price, cut.left);
                    assert(ahead[0] == before[at]);
                    assert(self@.skip(idx as int) == ahead.drop_first());
                    if moved.len() > 0 {
                        assert(levels_of(new@) == gathered.push((price, moved)));
                        assert(levels_of(new@) + rest.taken == gathered + (seq![(price, moved)]
                            + rest.taken));
                    } else {
                        assert(levels_of(new@) == gathered);
                    }
                    if drained {
                        assert(self@ == before.remove(at));
                        assert(self@.take(idx as int) == before.take(at));
                    } else {
                        assert(self@ == before.update(at, (price, cut.kept)));
                        assert(self@.take(idx as int) + rest.kept == before.take(at) + (seq![
                            (price, cut.kept),
                        ] + rest.kept));
                    }
                }
            }
        }
        proof {
            assert(self@.take(idx as int) + self@.skip(idx as int) == self@);
            if ordered {
                lemma_cut_levels_sorted(start, max_price, requested_size);
                lemma_cut_levels_tidy(start, max_price, requested_size);
                lemma_cut_levels_volume(start, max_price, requested_size);
                lemma_cut_levels_bounded(start, max_price, requested_size);
                lemma_cut_levels_reach(start, max_price, requested_size);
            }
        }
        Store::from(new)
    }

    /// Searches for a level of `price`: `Ok` with the position of one, or
    /// `Err` with the position where such a level belongs.
    fn find_price_idx(&self, price: Price) -> (r: Result<usize, usize>)
        ensures
            match r {
                Ok(i) => i < self@.len() && self@[i as int].0 == price,
                Err(i) => {
                    &&& i <= self@.len()
                    &&& sorted(self@) ==> {
                        &&& forall|j: int| 0 <= j < i ==> self@[j].0 < price
                        &&& forall|j: int| i <= j < self@.len() ==> self@[j].0 > price
                    }
                },
            },
    {
        let price_of = |level: &(Price, SizeMetaList)| -> (p: Price)
            ensures
                p == level.0,
            { level.0 };
        let r = self.inner.binary_search_by_key(&price, price_of);
        proof {
            let key = |level: (Price, SizeMetaList)| level.0;
            lemma_i32_lawful();
            if sorted(self@) {
                assert forall|i: int, j: int| 0 <= i <= j < self.inner@.len() implies rank_of(
                    key(#[trigger] self.inner@[i]),
                    key(#[trigger] self.inner@[j]),
                ) != Rank::After by {
                    assert(self@[i].0 <= self@[j].0);
                }
            }
            assert(computes_key(price_of, key));
            assert(search_outcome(self.inner@, key, price, r));
        }
        r
    }

    /// Takes up to `requested` out of `sizes`, from the first slot on.
    ///
    /// Returns whether `sizes` was emptied, the amounts taken with their tags,
    /// and what is left of `requested`.
    fn split_sizes(sizes: &mut SizeMetaList, requested: Size) -> (r: (bool, SizeMetaList, Size))
        ensures
            final(sizes)@ == cut_slots(old(sizes)@, requested).kept,
            r.0 == (final(sizes)@.len() == 0),
            r.1@ == cut_slots(old(sizes)@, requested).taken,
            r.2 == cut_slots(old(sizes)@, requested).left,
    {
        let ghost start = sizes@;
        let mut requested = requested;
        let ghost budget = requested;
        let mut new_sizes: SizeMetaList = Container::with_capacity(sizes.len());
        let mut idx: usize = 0;
        proof {
            assert(sizes@.skip(0) == sizes@);
            assert(sizes@.take(0) + sizes@ == sizes@);
        }
        while idx < sizes.len() && requested != 0
            invariant
                idx <= sizes@.len(),
                cut_slots(start, budget).taken == new_sizes@ + cut_slots(
                    sizes@.skip(idx as int),
                    requested,
                ).taken,
                cut_slots(start, budget).kept == sizes@.take(idx as int) + cut_slots(
                    sizes@.skip(idx as int),
                    requested,
                ).kept,
                cut_slots(start, budget).left == cut_slots(sizes@.skip(idx as int), requested).left,
            decreases sizes@.len() - idx,
        {
            let ghost before = sizes@;
            let ghost at = idx as int;
            let ghost gathered = new_sizes@;
            let slot = sizes.get_mut(idx);
            let new_size = if requested < slot.0 {
                requested
            } else {
                slot.0
            };
            slot.0 -= new_size;
            requested -= new_size;
            let meta = slot.1;
            let emptied = slot.0 == 0;
            if new_size != 0 {
                new_sizes.push((new_size, meta));
            }
            if emptied {
                sizes.remove(idx);
            } else {
                idx += 1;
            }
            proof {
                // the cut of the slots ahead, unfolded by the slot that was just cut
                let ahead = before.skip(at);
                let rest = cut_slots(ahead.drop_first(), requested);
                assert(ahead[0] == before[at]);
                assert(sizes@.skip(idx as int) == ahead.drop_first());
                if new_size != 0 {
                    assert(new_sizes@ + rest.taken == gathered + (seq![(new_size, meta)]
                        + rest.taken));
                }
                if emptied {
                    assert(sizes@.take(idx as int) == before.take(at));
                } else {
                    assert(sizes@.take(idx as int) + rest.kept == before.take(at) + (seq![
                        sizes@[at],
                    ] + rest.kept));
                }
            }
        }
        proof {
            assert(sizes@.take(idx as int) + sizes@.skip(idx as int) == sizes@);
        }
        (sizes.is_empty(), new_sizes, requested)
    }
}

impl FromSpecImpl<StoreInner> for Store {
    open spec fn obeys_from_spec() -> bool {
        true
    }

    closed spec fn from_spec(inner: StoreInner) -> Self {
        Store { inner }
    }
}

impl From<StoreInner> for Store {
    /// Takes `inner` as the levels of the store, as they are: nothing is
    /// sorted or checked.
    fn from(inner: StoreInner) -> (store: Self)
        ensures
            store@ == levels_of(inner@),
    {
        Store { inner }
    }
}

impl Default for Store {
    fn default() -> (store: Self)
        ensures
            store@ == Levels::empty(),
    {
        Store::new()
    }
}

impl vstd::std_specs::cmp::PartialEqSpecImpl for Store {
    open spec fn obeys_eq_spec() -> bool {
        true
    }

    /// Two stores are equal when they hold the same levels.
    open spec fn eq_spec(&self, other: &Store) -> bool {
        self@ == other@
    }
}

impl PartialEq for Store {
    fn eq(&self, other: &Store) -> (r: bool) {
        let r = self.inner == other.inner;
        proof {
            let (a, b) = (self.inner@, other.inner@);
            if r {
                assert forall|i: int| 0 <= i < a.len() implies levels_of(a)[i] == levels_of(b)[i] by {
                    assert(a[i].eq_spec(&b[i]));
                    assert(a[i].1@ =~= b[i].1@) by {
                        assert forall|k: int| 0 <= k < a[i].1@.len() implies a[i].1@[k] == b[i].1@[k] by {
                            assert(a[i].1@[k].eq_spec(&b[i].1@[k]));
                        }
                    }
                }
                assert(self@ =~= other@);
            } else {
                if self@ == other@ {
                    assert(levels_of(a).len() == a.len() && levels_of(b).len() == b.len());
                    assert forall|i: int| 0 <= i < a.len() implies (#[trigger] a[i]).eq_spec(
                        &b[i],
                    ) by {
                        assert(levels_of(a)[i] == levels_of(b)[i]);
                        assert(a[i].1@ == b[i].1@);
                    }
                }
            }
        }
        r
    }
}

impl Clone for Store {
    /// Copies the levels and their slots.
    fn clone(&self) -> (copy: Self)
        ensures
            copy@ == self@,
    {
        let mut levels: StoreInner = Container::with_capacity(self.inner.len());
        let mut i: usize = 0;
        while i < self.inner.len()
            invariant
                i <= self.inner@.len(),
                levels_of(levels@) == self@.take(i as int),
            decreases self.inner@.len() - i,
        {
            let level = self.inner.get(i);
            let mut slots: SizeMetaList = Container::with_capacity(level.1.len());
            let mut k: usize = 0;
            while k < level.1.len()
                invariant
                    k <= level.1@.len(),
                    slots@ == level.1@.take(k as int),
                decreases level.1@.len() - k,
            {
                slots.push(*level.1.get(k));
                proof {
                    assert(level.1@.take(k as int).push(level.1@[k as int]) == level.1@.take(
                        k as int + 1,
                    ));
                }
                k += 1;
            }
            proof {
                assert(level.1@.take(k as int) == level.1@);
            }
            levels.push((level.0, slots));
            proof {
                assert(self@.take(i as int).push(self@[i as int]) == self@.take(i as int + 1));
            }
            i += 1;
        }
        proof {
            assert(self@.take(i as int) == self@);
        }
        Store { inner: levels }
    }
}

} // verus!
