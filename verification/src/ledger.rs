use crate::{Meta, Price, Size};
use vstd::prelude::*;

verus! {

/// The slots of one price level, as plain values.
pub type Slots = Seq<(Size, Meta)>;

/// The levels of a store, as plain values: each a price and its slots.
pub type Levels = Seq<(Price, Seq<(Size, Meta)>)>;

/// The sum of the sizes of `slots`.
pub open spec fn volume(slots: Slots) -> nat
    decreases slots.len(),
{
    if slots.len() == 0 {
        0
    } else {
        slots[0].0 as nat + volume(slots.drop_first())
    }
}

/// The sum of the sizes of all the slots of `levels`.
pub open spec fn total_volume(levels: Levels) -> nat
    decreases levels.len(),
{
    if levels.len() == 0 {
        0
    } else {
        volume(levels[0].1) + total_volume(levels.drop_first())
    }
}

/// The prices of `levels` never go down.
pub open spec fn sorted(levels: Levels) -> bool {
    forall|i: int, j: int| 0 <= i <= j < levels.len() ==> levels[i].0 <= levels[j].0
}

/// No slot of `slots` has size zero.
pub open spec fn no_zero_slot(slots: Slots) -> bool {
    forall|k: int| 0 <= k < slots.len() ==> (#[trigger] slots[k]).0 > 0
}

/// Every level of `levels` has a slot, and no slot has size zero.
pub open spec fn tidy(levels: Levels) -> bool {
    forall|i: int|
        0 <= i < levels.len() ==> (#[trigger] levels[i]).1.len() > 0 && no_zero_slot(levels[i].1)
}

/// How many levels, from the first on, are priced at or below `max_price`:
/// the levels that a cut with that price can reach. In sorted levels they are
/// all the levels of such a price.
pub open spec fn reach(levels: Levels, max_price: Price) -> nat
    decreases levels.len(),
{
    if levels.len() == 0 || levels[0].0 > max_price {
        0
    } else {
        1 + reach(levels.drop_first(), max_price)
    }
}

/// `after` is `before` with `level` put in at some position.
pub open spec fn with_level(before: Levels, after: Levels, level: (Price, Slots)) -> bool {
    exists|i: int| 0 <= i <= before.len() && after == before.insert(i, level)
}

/// `after` is `before` with `slot` put behind the slots of some level priced
/// at `price`.
pub open spec fn with_slot(before: Levels, after: Levels, price: Price, slot: (Size, Meta)) -> bool {
    exists|i: int|
        0 <= i < before.len() && before[i].0 == price && after == before.update(
            i,
            (price, before[i].1.push(slot)),
        )
}

/// What taking a budget out of the slots of one level gives.
pub struct SlotCut {
    /// The amounts taken, each with the tag of the slot it came from.
    pub taken: Slots,
    /// What stays behind.
    pub kept: Slots,
    /// What is left of the budget.
    pub left: Size,
}

/// Takes up to `budget` out of `slots`, from the first slot on. A slot gives
/// what it has, or what is left of the budget if that is less; an emptied slot
/// goes, and an amount of zero is not recorded.
pub open spec fn cut_slots(slots: Slots, budget: Size) -> SlotCut
    decreases slots.len(),
{
    if slots.len() == 0 || budget == 0 {
        SlotCut { taken: Seq::empty(), kept: slots, left: budget }
    } else {
        let (size, meta) = slots[0];
        let moved = if budget < size {
            budget
        } else {
            size
        };
        let rest = cut_slots(slots.drop_first(), (budget - moved) as Size);
        SlotCut {
            taken: if moved > 0 {
                seq![(moved, meta)] + rest.taken
            } else {
                rest.taken
            },
            kept: if size > moved {
                seq![((size - moved) as Size, meta)] + rest.kept
            } else {
                rest.kept
            },
            left: rest.left,
        }
    }
}

/// What taking a budget out of the levels of a store gives.
pub struct LevelCut {
    /// The levels taken, each with the amounts that came from it.
    pub taken: Levels,
    /// What stays behind.
    pub kept: Levels,
    /// What is left of the budget.
    pub left: Size,
}

/// Takes up to `budget` out of `levels`, from the first level on and as long as
/// the price is at most `max_price`. Each level is cut as `cut_slots` says; a
/// level that ends without slots goes, and one that gave nothing is not
/// recorded.
pub open spec fn cut_levels(levels: Levels, max_price: Price, budget: Size) -> LevelCut
    decreases levels.len(),
{
    if levels.len() == 0 || budget == 0 || levels[0].0 > max_price {
        LevelCut { taken: Seq::empty(), kept: levels, left: budget }
    } else {
        let (price, slots) = levels[0];
        let cut = cut_slots(slots, budget);
        let rest = cut_levels(levels.drop_first(), max_price, cut.left);
        LevelCut {
            taken: if cut.taken.len() > 0 {
                seq![(price, cut.taken)] + rest.taken
            } else {
                rest.taken
            },
            kept: if cut.kept.len() > 0 {
                seq![(price, cut.kept)] + rest.kept
            } else {
                rest.kept
            },
            left: rest.left,
        }
    }
}

/// The volume of slots behind a first slot is that of the slots and the size
/// of the first.
pub proof fn lemma_volume_cons(slot: (Size, Meta), slots: Slots)
    ensures
        volume(seq![slot] + slots) == slot.0 + volume(slots),
{
    assert((seq![slot] + slots).drop_first() == slots);
}

/// The volume of levels behind a first level is that of the levels and of the
/// slots of the first.
pub proof fn lemma_total_volume_cons(level: (Price, Slots), levels: Levels)
    ensures
        total_volume(seq![level] + levels) == volume(level.1) + total_volume(levels),
{
    assert((seq![level] + levels).drop_first() == levels);
}

/// A cut moves volume and neither makes nor loses any: what was taken and
/// what was kept add up to what was there, what was taken and what is left of
/// the budget add up to the budget, and the budget is used as far as the slots
/// last.
pub proof fn lemma_cut_slots_volume(slots: Slots, budget: Size)
    ensures
        volume(cut_slots(slots, budget).taken) + volume(cut_slots(slots, budget).kept) == volume(
            slots,
        ),
        volume(cut_slots(slots, budget).taken) + cut_slots(slots, budget).left == budget,
        volume(cut_slots(slots, budget).taken) == if budget <= volume(slots) {
            budget as nat
        } else {
            volume(slots)
        },
    decreases slots.len(),
{
    if slots.len() == 0 || budget == 0 {
    } else {
        let (size, meta) = slots[0];
        let moved = if budget < size {
            budget
        } else {
            size
        };
        let rest = cut_slots(slots.drop_first(), (budget - moved) as Size);
        lemma_cut_slots_volume(slots.drop_first(), (budget - moved) as Size);
        lemma_volume_cons((moved, meta), rest.taken);
        lemma_volume_cons(((size - moved) as Size, meta), rest.kept);
    }
}

/// A cut records no amount of zero; it leaves no slot of size zero where there
/// was none; and while budget is left, it leaves no slot at all.
pub proof fn lemma_cut_slots_tidy(slots: Slots, budget: Size)
    ensures
        no_zero_slot(cut_slots(slots, budget).taken),
        no_zero_slot(slots) ==> no_zero_slot(cut_slots(slots, budget).kept),
        cut_slots(slots, budget).left > 0 ==> cut_slots(slots, budget).kept.len() == 0,
    decreases slots.len(),
{
    if slots.len() == 0 || budget == 0 {
    } else {
        let (size, meta) = slots[0];
        let moved = if budget < size {
            budget
        } else {
            size
        };
        lemma_cut_slots_tidy(slots.drop_first(), (budget - moved) as Size);
        if no_zero_slot(slots) {
            assert forall|k: int| 0 <= k < slots.drop_first().len() implies (
            #[trigger] slots.drop_first()[k]).0 > 0 by {
                assert(slots.drop_first()[k] == slots[k + 1]);
            }
        }
    }
}

/// A cut of the levels moves volume and neither makes nor loses any.
pub proof fn lemma_cut_levels_volume(levels: Levels, max_price: Price, budget: Size)
    ensures
        total_volume(cut_levels(levels, max_price, budget).taken) + total_volume(
            cut_levels(levels, max_price, budget).kept,
        ) == total_volume(levels),
        total_volume(cut_levels(levels, max_price, budget).taken) + cut_levels(
            levels,
            max_price,
            budget,
        ).left == budget,
    decreases levels.len(),
{
    if levels.len() == 0 || budget == 0 || levels[0].0 > max_price {
    } else {
        let (price, slots) = levels[0];
        let cut = cut_slots(slots, budget);
        let rest = cut_levels(levels.drop_first(), max_price, cut.left);
        lemma_cut_slots_volume(slots, budget);
        lemma_cut_levels_volume(levels.drop_first(), max_price, cut.left);
        lemma_total_volume_cons((price, cut.taken), rest.taken);
        lemma_total_volume_cons((price, cut.kept), rest.kept);
    }
}

/// A cut of sorted levels gives sorted levels, both taken and kept, and no
/// price in them is below the first price that was there.
pub proof fn lemma_cut_levels_sorted(levels: Levels, max_price: Price, budget: Size)
    requires
        sorted(levels),
    ensures
        sorted(cut_levels(levels, max_price, budget).taken),
        sorted(cut_levels(levels, max_price, budget).kept),
        forall|i: int|
            0 <= i < cut_levels(levels, max_price, budget).taken.len() ==> levels[0].0 <= (
            #[trigger] cut_levels(levels, max_price, budget).taken[i]).0,
        forall|i: int|
            0 <= i < cut_levels(levels, max_price, budget).kept.len() ==> levels[0].0 <= (
            #[trigger] cut_levels(levels, max_price, budget).kept[i]).0,
    decreases levels.len(),
{
    if levels.len() == 0 || budget == 0 || levels[0].0 > max_price {
    } else {
        let (price, slots) = levels[0];
        let cut = cut_slots(slots, budget);
        let tail = levels.drop_first();
        let rest = cut_levels(tail, max_price, cut.left);
        assert forall|i: int, j: int| 0 <= i <= j < tail.len() implies tail[i].0 <= tail[j].0 by {
            assert(tail[i] == levels[i + 1] && tail[j] == levels[j + 1]);
        }
        lemma_cut_levels_sorted(tail, max_price, cut.left);
        if tail.len() > 0 {
            assert(tail[0] == levels[1]);
            assert(levels[0].0 <= levels[1].0);
        }
    }
}

/// A cut of the levels records no level without slots and no amount of zero,
/// and it leaves the levels tidy where they were.
pub proof fn lemma_cut_levels_tidy(levels: Levels, max_price: Price, budget: Size)
    ensures
        tidy(cut_levels(levels, max_price, budget).taken),
        tidy(levels) ==> tidy(cut_levels(levels, max_price, budget).kept),
    decreases levels.len(),
{
    if levels.len() == 0 || budget == 0 || levels[0].0 > max_price {
    } else {
        let (price, slots) = levels[0];
        let cut = cut_slots(slots, budget);
        let tail = levels.drop_first();
        lemma_cut_slots_tidy(slots, budget);
        lemma_cut_levels_tidy(tail, max_price, cut.left);
        if tidy(levels) {
            assert forall|i: int| 0 <= i < tail.len() implies (#[trigger] tail[i]).1.len() > 0
                && no_zero_slot(tail[i].1) by {
                assert(tail[i] == levels[i + 1]);
            }
        }
    }
}

/// A budget of zero takes nothing: the levels stay as they are.
pub proof fn lemma_cut_levels_nothing(levels: Levels, max_price: Price)
    ensures
        cut_levels(levels, max_price, 0).taken == Levels::empty(),
        cut_levels(levels, max_price, 0).kept == levels,
{
}

/// No level is taken from at a price above `max_price`.
pub proof fn lemma_cut_levels_bounded(levels: Levels, max_price: Price, budget: Size)
    ensures
        forall|i: int|
            0 <= i < cut_levels(levels, max_price, budget).taken.len() ==> (
            #[trigger] cut_levels(levels, max_price, budget).taken[i]).0 <= max_price,
    decreases levels.len(),
{
    if levels.len() == 0 || budget == 0 || levels[0].0 > max_price {
    } else {
        let cut = cut_slots(levels[0].1, budget);
        let rest = cut_levels(levels.drop_first(), max_price, cut.left);
        let taken = cut_levels(levels, max_price, budget).taken;
        lemma_cut_levels_bounded(levels.drop_first(), max_price, cut.left);
        assert forall|i: int| 0 <= i < taken.len() implies (#[trigger] taken[i]).0 <= max_price by {
            if cut.taken.len() > 0 && i > 0 {
                assert(taken[i] == rest.taken[i - 1]);
            }
        }
    }
}

/// The first `reach` levels are priced at or below `max_price`, and the level
/// after them, if there is one, is priced above it, as is every later level
/// where the levels are sorted.
pub proof fn lemma_reach_bounds(levels: Levels, max_price: Price)
    ensures
        reach(levels, max_price) <= levels.len(),
        forall|j: int| 0 <= j < reach(levels, max_price) ==> levels[j].0 <= max_price,
        reach(levels, max_price) < levels.len() ==> levels[reach(levels, max_price) as int].0
            > max_price,
        sorted(levels) ==> forall|j: int|
            reach(levels, max_price) <= j < levels.len() ==> levels[j].0 > max_price,
    decreases levels.len(),
{
    if levels.len() == 0 || levels[0].0 > max_price {
        if sorted(levels) {
            assert forall|j: int| 0 <= j < levels.len() implies levels[j].0 > max_price by {
                assert(levels[0].0 <= levels[j].0);
            }
        }
    } else {
        let tail = levels.drop_first();
        let n = reach(tail, max_price) as int;
        lemma_reach_bounds(tail, max_price);
        assert forall|j: int| 0 <= j < n + 1 implies levels[j].0 <= max_price by {
            if j > 0 {
                assert(tail[j - 1] == levels[j]);
            }
        }
        if n < tail.len() {
            assert(tail[n] == levels[n + 1]);
        }
        if sorted(levels) {
            assert forall|i: int, j: int| 0 <= i <= j < tail.len() implies tail[i].0
                <= tail[j].0 by {
                assert(tail[i] == levels[i + 1] && tail[j] == levels[j + 1]);
            }
            assert forall|j: int| n + 1 <= j < levels.len() implies levels[j].0 > max_price by {
                assert(tail[j - 1] == levels[j]);
            }
        }
    }
}

/// A cut goes as far as the levels within reach and no further, whatever the
/// budget: the levels behind them stay as they are.
pub proof fn lemma_cut_levels_reach(levels: Levels, max_price: Price, budget: Size)
    ensures
        reach(levels, max_price) <= levels.len(),
        cut_levels(levels, max_price, budget).taken == cut_levels(
            levels.take(reach(levels, max_price) as int),
            max_price,
            budget,
        ).taken,
        cut_levels(levels, max_price, budget).kept == cut_levels(
            levels.take(reach(levels, max_price) as int),
            max_price,
            budget,
        ).kept + levels.skip(reach(levels, max_price) as int),
        cut_levels(levels, max_price, budget).left == cut_levels(
            levels.take(reach(levels, max_price) as int),
            max_price,
            budget,
        ).left,
    decreases levels.len(),
{
    let n = reach(levels, max_price) as int;
    let head = levels.take(n);
    lemma_reach_bounds(levels, max_price);
    if levels.len() == 0 || levels[0].0 > max_price {
        assert(levels.skip(0) == levels);
        assert(head + levels == levels);
    } else if budget == 0 {
        assert(head + levels.skip(n) == levels);
    } else {
        let (price, slots) = levels[0];
        let cut = cut_slots(slots, budget);
        let tail = levels.drop_first();
        assert(head.drop_first() == tail.take(n - 1));
        assert(tail.skip(n - 1) == levels.skip(n));
        lemma_cut_levels_reach(tail, max_price, cut.left);
        let rest = cut_levels(tail.take(n - 1), max_price, cut.left);
        assert((seq![(price, cut.kept)] + rest.kept) + levels.skip(n) == seq![(price, cut.kept)] + (
        rest.kept + levels.skip(n)));
    }
}

/// Among the levels within reach no volume is made or lost either: what was
/// taken and what is kept of them add up to what they held.
pub proof fn lemma_cut_levels_volume_within_reach(levels: Levels, max_price: Price, budget: Size)
    ensures
        total_volume(cut_levels(levels, max_price, budget).taken) + total_volume(
            cut_levels(levels.take(reach(levels, max_price) as int), max_price, budget).kept,
        ) == total_volume(levels.take(reach(levels, max_price) as int)),
{
    lemma_cut_levels_reach(levels, max_price, budget);
    lemma_cut_levels_volume(levels.take(reach(levels, max_price) as int), max_price, budget);
}

/// A cut takes the budget, or all that the levels within reach hold if that is
/// less.
pub proof fn lemma_cut_levels_amount(levels: Levels, max_price: Price, budget: Size)
    ensures
        total_volume(cut_levels(levels, max_price, budget).taken) == if budget <= total_volume(
            levels.take(reach(levels, max_price) as int),
        ) {
            budget as nat
        } else {
            total_volume(levels.take(reach(levels, max_price) as int))
        },
    decreases levels.len(),
{
    let n = reach(levels, max_price) as int;
    let head = levels.take(n);
    lemma_reach_bounds(levels, max_price);
    if levels.len() == 0 || levels[0].0 > max_price {
    } else if budget == 0 {
    } else {
        let (price, slots) = levels[0];
        let cut = cut_slots(slots, budget);
        let tail = levels.drop_first();
        let rest = cut_levels(tail, max_price, cut.left);
        assert(head[0] == levels[0]);
        assert(head.drop_first() == tail.take(n - 1));
        lemma_cut_slots_volume(slots, budget);
        lemma_cut_levels_amount(tail, max_price, cut.left);
        lemma_total_volume_cons((price, cut.taken), rest.taken);
    }
}

/// With a budget that covers them, the levels within reach are taken whole,
/// those priced at `max_price` itself too, and the levels behind them stay.
pub proof fn lemma_cut_levels_whole(levels: Levels, max_price: Price, budget: Size)
    requires
        tidy(levels),
        total_volume(levels.take(reach(levels, max_price) as int)) <= budget,
    ensures
        cut_levels(levels, max_price, budget).taken == levels.take(
            reach(levels, max_price) as int,
        ),
        cut_levels(levels, max_price, budget).kept == levels.skip(reach(levels, max_price) as int),
        cut_levels(levels, max_price, budget).left == budget - total_volume(
            levels.take(reach(levels, max_price) as int),
        ),
    decreases levels.len(),
{
    let n = reach(levels, max_price) as int;
    let head = levels.take(n);
    lemma_reach_bounds(levels, max_price);
    if levels.len() == 0 || levels[0].0 > max_price {
        assert(levels.skip(0) == levels);
        assert(head == Levels::empty());
    } else {
        let (price, slots) = levels[0];
        let tail = levels.drop_first();
        assert(head[0] == levels[0]);
        assert(head.drop_first() == tail.take(n - 1));
        assert(tail.skip(n - 1) == levels.skip(n));
        assert(slots.len() > 0 && no_zero_slot(slots));
        assert(slots[0].0 > 0);
        assert(volume(slots) > 0);
        lemma_cut_slots_whole(slots, budget);
        let cut = cut_slots(slots, budget);
        assert forall|j: int| 0 <= j < tail.len() implies (#[trigger] tail[j]).1.len() > 0
            && no_zero_slot(tail[j].1) by {
            assert(tail[j] == levels[j + 1]);
        }
        lemma_cut_levels_whole(tail, max_price, cut.left);
        assert(seq![(price, slots)] + tail.take(n - 1) == head);
    }
}

/// A budget that covers the slots takes them whole, where none has size zero.
pub proof fn lemma_cut_slots_whole(slots: Slots, budget: Size)
    requires
        no_zero_slot(slots),
        volume(slots) <= budget,
    ensures
        cut_slots(slots, budget).taken == slots,
        cut_slots(slots, budget).kept == Slots::empty(),
        cut_slots(slots, budget).left == budget - volume(slots),
    decreases slots.len(),
{
    if slots.len() == 0 {
        assert(cut_slots(slots, budget).taken == slots);
    } else {
        let (size, meta) = slots[0];
        let tail = slots.drop_first();
        assert(size > 0);
        assert forall|k: int| 0 <= k < tail.len() implies (#[trigger] tail[k]).0 > 0 by {
            assert(tail[k] == slots[k + 1]);
        }
        lemma_cut_slots_whole(tail, (budget - size) as Size);
        assert(seq![(size, meta)] + tail == slots);
    }
}

/// A slot appended at the price of a level that was just inserted ends the
/// slots of a level of that price. Where no level had that price before, it is
/// the inserted level, with the slot behind its own.
pub proof fn lemma_slot_after_level(
    before: Levels,
    between: Levels,
    after: Levels,
    level: (Price, Slots),
    slot: (Size, Meta),
)
    requires
        with_level(before, between, level),
        with_slot(between, after, level.0, slot),
    ensures
        exists|j: int|
            0 <= j < after.len() && after[j].0 == level.0 && after[j].1.len() > 0
                && after[j].1.last() == slot,
        (forall|k: int| 0 <= k < before.len() ==> before[k].0 != level.0) ==> with_level(
            before,
            after,
            (level.0, level.1.push(slot)),
        ),
{
    let i = choose|i: int| 0 <= i <= before.len() && between == before.insert(i, level);
    let j = choose|j: int|
        0 <= j < between.len() && between[j].0 == level.0 && after == between.update(
            j,
            (level.0, between[j].1.push(slot)),
        );
    assert(after[j].1.last() == slot);
    if forall|k: int| 0 <= k < before.len() ==> before[k].0 != level.0 {
        if j < i {
            assert(between[j] == before[j]);
        } else if j > i {
            assert(between[j] == before[j - 1]);
        }
        assert(j == i);
        assert(after == before.insert(i, (level.0, level.1.push(slot))));
    }
}

} // verus!
