//! Inventory slots that hold a stack of one kind of item, up to a maximum
//! stack size.
use vstd::prelude::*;

use vstd::std_specs::cmp::PartialEqSpec;

use crate::polyfill::option::OptionPolyfill;
use crate::util::NonZeroUsize;

verus! {

/// A positive number of one kind of item.
pub(crate) struct ItemAmount<T> {
    item: T,
    amount: NonZeroUsize,
}

impl<T> ItemAmount<T> {
    pub(crate) closed spec fn item(&self) -> T {
        self.item
    }

    pub(crate) closed spec fn amount(&self) -> nat {
        self.amount@
    }

    /// The amount is never zero.
    pub(crate) proof fn lemma_amount_positive(&self)
        ensures
            self.amount() > 0,
    {
        self.amount.lemma_positive();
    }
}

/// Decides which items a take from a slot may pick.
pub(crate) trait ItemMatcher<T> {
    /// The matcher can be asked about `item`.
    spec fn can_check(&self, item: T) -> bool;

    /// The matcher may answer yes for `item`; a yes is only given where this
    /// holds.
    spec fn may_match(&self, item: T) -> bool;

    /// The matcher may answer no for `item`; a no is only given where this
    /// holds.
    spec fn may_reject(&self, item: T) -> bool;

    fn matches(&self, checked_item: &T) -> (r: bool)
        requires
            self.can_check(*checked_item),
        ensures
            r ==> self.may_match(*checked_item),
            !r ==> self.may_reject(*checked_item),
    ;
}

/// Matches items equal to the one it holds.
pub(crate) struct ExactItemMatch<T>(T);

impl<T> ItemMatcher<T> for ExactItemMatch<T> where T: PartialEq {
    open spec fn can_check(&self, item: T) -> bool {
        true
    }

    /// Where `T`'s `==` follows its specification, exactly the items equal to
    /// the held one; otherwise any item.
    closed spec fn may_match(&self, item: T) -> bool {
        T::obeys_eq_spec() ==> self.0.eq_spec(&item)
    }

    /// Where `T`'s `==` follows its specification, exactly the items not
    /// equal to the held one; otherwise any item.
    closed spec fn may_reject(&self, item: T) -> bool {
        T::obeys_eq_spec() ==> !self.0.eq_spec(&item)
    }

    fn matches(&self, checked_item: &T) -> (r: bool) {
        &self.0 == checked_item
    }
}

impl<F, T> ItemMatcher<T> for F where F: Fn(&T) -> bool {
    open spec fn can_check(&self, item: T) -> bool {
        call_requires(*self, (&item,))
    }

    open spec fn may_match(&self, item: T) -> bool {
        call_ensures(*self, (&item,), true)
    }

    open spec fn may_reject(&self, item: T) -> bool {
        call_ensures(*self, (&item,), false)
    }

    fn matches(&self, checked_item: &T) -> (r: bool) {
        self(checked_item)
    }
}

/// A slot's stack, once it holds something.
pub(crate) struct FilledSlot<T>(ItemAmount<T>);

impl<T> FilledSlot<T> {
    pub(crate) closed spec fn stack(&self) -> ItemAmount<T> {
        self.0
    }
}

pub(crate) enum ItemSlot<T> {
    Empty,
    Filled(FilledSlot<T>),
}

/// A slot that only accepts one kind of item, remembered even while empty.
pub(crate) enum FilteredItemSlot<T> {
    Empty(T),
    Filled(FilledSlot<T>),
}

pub(crate) trait Slot<T>: Sized where T: PartialEq {
    /// Try to add items to this slot. If the slot can't accept all the items, it will return `Err` holding the remaining items given to the slot.
    fn try_add_items(&mut self, item_amount: ItemAmount<T>, max_stack: NonZeroUsize) -> Result<
        (),
        ItemAmount<T>,
    >;

    /// The kind of item the slot holds, if it holds any.
    spec fn held_item(&self) -> Option<T>;

    /// Try to take items of a matching type from this slot: up to
    /// `max_take_amount` of them, leaving the rest in the slot. A slot that is
    /// empty or holds items of another kind gives nothing.
    fn try_take_items<P>(&mut self, item_matcher: P, max_take_amount: NonZeroUsize) -> (res:
        Option<ItemAmount<T>>) where P: ItemMatcher<T>
        requires
            old(self).held_item() matches Some(held) ==> item_matcher.can_check(held),
    ;
}

/// The smaller of two counts.
pub(crate) open spec fn min_count(a: int, b: int) -> int {
    if a < b {
        a
    } else {
        b
    }
}

/// What is left of `offered` once `taken` of it went into a slot.
pub(crate) open spec fn leftover_after<T>(
    res: Result<(), ItemAmount<T>>,
    offered: ItemAmount<T>,
    taken: int,
) -> bool {
    if offered.amount() > taken {
        res matches Err(rest) && rest.item() == offered.item() && rest.amount()
            == offered.amount() - taken
    } else {
        res is Ok
    }
}

impl<T> Slot<T> for ItemSlot<T> where T: PartialEq + Clone {
    /// The slot takes as many of the offered items as it has room for up to
    /// `max_stack`: all of them, or enough to fill it. An empty slot takes
    /// them as (a clone of) the offered kind; a filled slot only takes items
    /// of its own kind. Whatever the slot did not take comes back as `Err`;
    /// a slot of another kind, or a full one, hands everything back
    /// unchanged. No item is created or lost.
    fn try_add_items(&mut self, item_amount: ItemAmount<T>, max_stack: NonZeroUsize) -> (res:
        Result<(), ItemAmount<T>>)
        ensures
            match *old(self) {
                ItemSlot::Empty => {
                    let taken = min_count(item_amount.amount() as int, max_stack@ as int);
                    &&& *final(self) matches ItemSlot::Filled(f) && cloned(
                        item_amount.item(),
                        f.stack().item(),
                    ) && f.stack().amount() == taken
                    &&& leftover_after(res, item_amount, taken)
                },
                ItemSlot::Filled(f) => {
                    let room = max_stack@ - f.stack().amount();
                    ||| {
                        &&& res == Err::<(), ItemAmount<T>>(item_amount)
                        &&& *final(self) == *old(self)
                        &&& T::obeys_eq_spec() ==> (!f.stack().item().eq_spec(&item_amount.item())
                            || room <= 0)
                    }
                    ||| {
                        let taken = min_count(item_amount.amount() as int, room);
                        &&& room > 0
                        &&& T::obeys_eq_spec() ==> f.stack().item().eq_spec(&item_amount.item())
                        &&& *final(self) matches ItemSlot::Filled(g) && g.stack().item()
                            == f.stack().item() && g.stack().amount() == f.stack().amount() + taken
                        &&& leftover_after(res, item_amount, taken)
                    }
                },
            },
    {
        let offered = item_amount.amount.get();
        let take_amount: NonZeroUsize = match &*self {
            ItemSlot::Empty => if offered < max_stack.get() {
                item_amount.amount
            } else {
                max_stack
            },
            ItemSlot::Filled(filled_slot) => {
                if &filled_slot.0.item == &item_amount.item {
                    match max_stack.get().checked_sub(filled_slot.0.amount.get()) {
                        Some(room) => match NonZeroUsize::new(room) {
                            Some(room) => if offered < room.get() {
                                item_amount.amount
                            } else {
                                room
                            },
                            None => {
                                return Err(item_amount);
                            },
                        },
                        None => {
                            return Err(item_amount);
                        },
                    }
                } else {
                    return Err(item_amount);
                }
            },
        };

        match self {
            ItemSlot::Empty => {
                *self = ItemSlot::Filled(
                    FilledSlot(ItemAmount { item: item_amount.item.clone(), amount: take_amount }),
                );
            },
            ItemSlot::Filled(filled_slot) => {
                // Cannot overflow: the amount added at most tops the stack up
                // to `max_stack`, which is itself a usize.
                let topped_up = filled_slot.0.amount.get() + take_amount.get();
                filled_slot.0.amount = match NonZeroUsize::new(topped_up) {
                    Some(amount) => amount,
                    None => take_amount,
                };
            },
        }

        let remaining = match item_amount.amount.get().checked_sub(take_amount.get()) {
            Some(rest) => NonZeroUsize::new(rest),
            None => None,
        };
        let leftover = match remaining {
            Some(amount) => Some(ItemAmount { item: item_amount.item, amount }),
            None => None,
        };
        leftover.err_or(())
    }

    open spec fn held_item(&self) -> Option<T> {
        match self {
            ItemSlot::Empty => None,
            ItemSlot::Filled(f) => Some(f.stack().item()),
        }
    }

    /// A matching slot hands out the smaller of `max_take_amount` and what it
    /// holds, and keeps the rest; taking everything empties it.
    fn try_take_items<P>(&mut self, item_matcher: P, max_take_amount: NonZeroUsize) -> (res:
        Option<ItemAmount<T>>) where P: ItemMatcher<T>
        ensures
            match *old(self) {
                ItemSlot::Empty => res is None && *final(self) == *old(self),
                ItemSlot::Filled(f) => {
                    let held = f.stack().amount() as int;
                    let taken = min_count(max_take_amount@ as int, held);
                    ||| {
                        &&& res is None
                        &&& *final(self) == *old(self)
                        &&& item_matcher.may_reject(f.stack().item())
                    }
                    ||| {
                        &&& item_matcher.may_match(f.stack().item())
                        &&& res matches Some(out) && cloned(f.stack().item(), out.item())
                            && out.amount() == taken
                        &&& taken == held ==> *final(self) is Empty
                        &&& taken < held ==> (*final(self) matches ItemSlot::Filled(g)
                            && g.stack().item() == f.stack().item() && g.stack().amount() == held
                            - taken)
                    }
                },
            },
    {
        let mut slot = ItemSlot::Empty;
        core::mem::swap(self, &mut slot);
        match slot {
            ItemSlot::Empty => None,
            ItemSlot::Filled(FilledSlot(stack)) => {
                if item_matcher.matches(&stack.item) {
                    let held = stack.amount.get();
                    let max_take = max_take_amount.get();
                    if max_take < held {
                        let rest = NonZeroUsize::new(held - max_take);
                        match rest {
                            Some(rest) => {
                                let taken_item = stack.item.clone();
                                *self = ItemSlot::Filled(
                                    FilledSlot(ItemAmount { item: stack.item, amount: rest }),
                                );
                                Some(ItemAmount { item: taken_item, amount: max_take_amount })
                            },
                            None => {
                                proof {
                                    assert(false);
                                }
                                None
                            },
                        }
                    } else {
                        // Everything goes; the slot stays empty.
                        Some(stack)
                    }
                } else {
                    *self = ItemSlot::Filled(FilledSlot(stack));
                    None
                }
            },
        }
    }
}

} // verus!
