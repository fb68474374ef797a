//! Belt lines: a queue of items, front first, each remembering the gap in
//! front of it. Ticking moves the front-most movable item forward and spreads
//! out items that are packed too tightly.
use vstd::prelude::*;

pub mod model;

use std::ops::Range;

use crate::belt::model::{
    append_state, ascii_art, belt_positions, beyond_search_fits, can_draw, can_insert_ahead,
    can_insert_at_position, can_take, cursor_measure, decompress_spec, draw_item, first_beyond,
    first_reaching, hint_index_for_position, insert_ahead_state, insertion_gap, insertion_slot,
    item_marker, lemma_decompress_keeps_front, lemma_sum_monotone, lemma_sum_nonneg, lemma_sum_split,
    move_from_spec, position_search_fits, positions_fit, prefix_sum, sum_gaps, take_gaps,
    tick_spec, BeltState,
};
use crate::util::nonmax::opt_index;
use crate::util::{Id, IdMapper, NonMaxUsize};

verus! {

/// A stretch of belt between two positions.
pub struct BeltLineLocationRange {
    start: u32,
    end: u32,
}

impl BeltLineLocationRange {
    pub closed spec fn start(&self) -> u32 {
        self.start
    }

    pub closed spec fn end(&self) -> u32 {
        self.end
    }

    pub fn new(range: Range<u32>) -> (r: Self)
        ensures
            r.start() == range.start,
            r.end() == range.end,
    {
        Self { start: range.start, end: range.end }
    }
}

/// How fast a belt moves per tick, and how far apart items sit when packed.
#[derive(Debug, Clone, Copy)]
pub struct BeltLineProperties {
    speed: u32,
    item_separation: u32,
}

impl BeltLineProperties {
    pub closed spec fn spec_speed(&self) -> u32 {
        self.speed
    }

    pub closed spec fn spec_item_separation(&self) -> u32 {
        self.item_separation
    }

    pub fn new(speed: u32, item_separation: u32) -> (p: Self)
        ensures
            p.spec_speed() == speed,
            p.spec_item_separation() == item_separation,
    {
        Self { speed, item_separation }
    }

    pub fn speed(&self) -> (s: u32)
        ensures
            s == self.spec_speed(),
    {
        self.speed
    }

    pub fn item_separation(&self) -> (s: u32)
        ensures
            s == self.spec_item_separation(),
    {
        self.item_separation
    }
}

impl Default for BeltLineProperties {
    fn default() -> (p: Self)
        ensures
            p.spec_speed() == 1,
            p.spec_item_separation() == 4,
    {
        Self { speed: 1, item_separation: 4 }
    }
}

#[derive(Debug, Clone)]
struct BeltElement<T> {
    /// The distance between the back-most point of the item and the next thing in front of it
    front_gap: u32,
    contents: T,
}

#[derive(Debug, Clone, Copy, PartialEq, Eq)]
struct BeltPositionIndex {
    position: u32,
    index: usize,
}

impl BeltPositionIndex {
    fn zero() -> (z: Self)
        ensures
            z.position == 0,
            z.index == 0,
    {
        BeltPositionIndex { position: 0, index: 0 }
    }
}

/// A belt line carrying items of type `T`.
#[derive(Debug, Clone)]
pub struct BeltLine<T> {
    /// Element 0 is the front of the belt.
    elements: Vec<BeltElement<T>>,
    /// Index of the front-most uncompressed item
    front_uncompressed: Option<NonMaxUsize>,
    /// Index of the next over-compressed item, after the front-most over-compressed item
    next_overcompressed: Option<NonMaxUsize>,
    position_index_cache: Option<BeltPositionIndex>,
    properties: BeltLineProperties,
}

/// The cache as a plain (position, index) pair.
spec fn cache_view(c: Option<BeltPositionIndex>) -> Option<(u32, nat)> {
    match c {
        Some(p) => Some((p.position, p.index as nat)),
        None => None,
    }
}

/// Collects the characters into a new `String` (std's `FromIterator<char>`
/// for `String`). Trusted to give a string holding exactly these characters,
/// in order.
#[verifier::external_body]
fn string_from_chars(chars: &Vec<char>) -> (s: String)
    ensures
        s@ == chars@,
{
    chars.iter().collect()
}

impl<T> BeltLine<T> {
    /// The gaps, cursors and cache of the belt.
    pub closed spec fn state(&self) -> BeltState {
        BeltState {
            gaps: self.elements@.map_values(|e: BeltElement<T>| e.front_gap),
            front_uncompressed: opt_index(self.front_uncompressed),
            next_overcompressed: opt_index(self.next_overcompressed),
            cache: cache_view(self.position_index_cache),
        }
    }

    /// The items on the belt, front first.
    pub closed spec fn items(&self) -> Seq<T> {
        self.elements@.map_values(|e: BeltElement<T>| e.contents)
    }

    /// The speed and separation the belt was made with.
    pub closed spec fn props(&self) -> BeltLineProperties {
        self.properties
    }

    /// The gap in front of each item, front first.
    pub open spec fn gaps(&self) -> Seq<u32> {
        self.state().gaps
    }

    /// How far apart items sit when packed.
    pub open spec fn separation(&self) -> u32 {
        self.props().spec_item_separation()
    }

    /// How far the belt moves items per tick.
    pub open spec fn belt_speed(&self) -> u32 {
        self.props().spec_speed()
    }

    proof fn lemma_lengths(&self)
        ensures
            self.gaps().len() == self.elements@.len(),
            self.items().len() == self.elements@.len(),
            forall|i: int|
                0 <= i < self.elements@.len() ==> #[trigger] self.gaps()[i]
                    == self.elements@[i].front_gap,
            forall|i: int|
                0 <= i < self.elements@.len() ==> #[trigger] self.items()[i]
                    == self.elements@[i].contents,
    {
    }

    /// There is one gap for every item on the belt.
    pub proof fn lemma_items_match_gaps(&self)
        ensures
            self.items().len() == self.gaps().len(),
    {
    }

    /// An empty belt with the given properties.
    pub fn new(properties: BeltLineProperties) -> (b: Self)
        ensures
            b.state() == (BeltState {
                gaps: Seq::empty(),
                front_uncompressed: None,
                next_overcompressed: None,
                cache: None,
            }),
            b.items() == Seq::<T>::empty(),
            b.props() == properties,
    {
        let b = Self {
            elements: Vec::new(),
            front_uncompressed: None,
            next_overcompressed: None,
            position_index_cache: None,
            properties,
        };
        proof {
            assert(b.state().gaps =~= Seq::empty());
            assert(b.items() =~= Seq::empty());
        }
        b
    }
}

impl<T> BeltLine<T> {
    /// Puts `item` at the back of the belt, `distance` behind the last item.
    pub fn append_item(&mut self, distance: u32, item: T)
        ensures
            final(self).state() == append_state(old(self).state(), distance, old(self).separation()),
            final(self).items() == old(self).items().push(item),
            final(self).props() == old(self).props(),
    {
        self.elements.push(BeltElement { front_gap: distance, contents: item });
        proof {
            assert(self.state().gaps =~= old(self).state().gaps.push(distance));
            assert(self.items() =~= old(self).items().push(item));
        }
        if distance < self.properties.item_separation() {
            let index = self.elements.len();
            if self.front_uncompressed.is_some() {
                if self.next_overcompressed.is_none() {
                    self.next_overcompressed = NonMaxUsize::new(index);
                }
            }
        } else if distance > self.properties.item_separation() {
            let index = self.elements.len();
            if self.front_uncompressed.is_none() {
                self.front_uncompressed = NonMaxUsize::new(index);
            }
        }
    }

    /// The belt has nothing left to move.
    pub fn can_sleep(&self) -> (r: bool)
        ensures
            r <==> self.state().front_uncompressed is None,
    {
        self.front_uncompressed.is_none()
    }

    /// The item at `index`, counted from the front.
    pub fn get(&self, index: usize) -> (r: Option<&T>)
        ensures
            match r {
                Some(x) => index < self.items().len() && *x == self.items()[index as int],
                None => index >= self.items().len(),
            },
    {
        proof {
            self.lemma_lengths();
        }
        if index < self.elements.len() {
            Some(&self.elements[index].contents)
        } else {
            None
        }
    }

    /// Mutable access to the item at `index`, counted from the front.
    pub fn get_mut(&mut self, index: usize) -> (r: Option<&mut T>)
        ensures
            match r {
                Some(x) => {
                    &&& index < old(self).items().len()
                    &&& *x == old(self).items()[index as int]
                    &&& final(self).items() == old(self).items().update(index as int, *final(x))
                    &&& final(self).state() == old(self).state()
                    &&& final(self).props() == old(self).props()
                },
                None => index >= old(self).items().len() && *final(self) == *old(self),
            },
    {
        proof {
            self.lemma_lengths();
        }
        if index < self.elements.len() {
            Some(&mut self.elements[index].contents)
        } else {
            None
        }
    }

    /// Removes the item at `index`. The item behind it takes over its gap, so
    /// every other item keeps its position.
    pub fn take_at_index(&mut self, index: usize) -> (r: Option<T>)
        requires
            can_take(old(self).gaps(), index as int),
        ensures
            index < old(self).items().len() ==> {
                &&& r == Some(old(self).items()[index as int])
                &&& final(self).items() == old(self).items().remove(index as int)
                &&& final(self).state() == (BeltState {
                    gaps: take_gaps(old(self).gaps(), index as int),
                    ..old(self).state()
                })
            },
            index >= old(self).items().len() ==> r is None && *final(self) == *old(self),
            final(self).props() == old(self).props(),
    {
        proof {
            self.lemma_lengths();
        }
        if index < self.elements.len() {
            let taken = self.elements.remove(index);
            if index < self.elements.len() {
                self.elements[index].front_gap = self.elements[index].front_gap + taken.front_gap;
            }
            proof {
                assert(self.state().gaps =~= take_gaps(old(self).gaps(), index as int));
                assert(self.items() =~= old(self).items().remove(index as int));
            }
            Some(taken.contents)
        } else {
            None
        }
    }

    /// Moves the item under `index` forward by as much of `movement_left` as
    /// its gap allows beyond the separation; `index` moves on to the next
    /// item once this one has no slack left.
    fn move_from(&mut self, index: &mut Option<NonMaxUsize>, movement_left: &mut u32) -> (moved:
        u32)
        requires
            move_from_spec(
                old(self).gaps(),
                opt_index(*old(index)),
                *old(movement_left),
                old(self).separation(),
            ) is Some,
        ensures
            ({
                let m = move_from_spec(
                    old(self).gaps(),
                    opt_index(*old(index)),
                    *old(movement_left),
                    old(self).separation(),
                )->0;
                &&& final(self).state() == (BeltState { gaps: m.0, ..old(self).state() })
                &&& opt_index(*final(index)) == m.1
                &&& *final(movement_left) == m.2
                &&& moved == m.3
            }),
            final(self).items() == old(self).items(),
            final(self).props() == old(self).props(),
    {
        proof {
            self.lemma_lengths();
        }
        let front_gap = self.properties.item_separation();
        let cursor = *index;
        let movement_amount: u32 = match cursor {
            None => 0,
            Some(front_uncompressed) => {
                let i = front_uncompressed.get();
                let gap = self.elements[i].front_gap;
                let mut amount: u32 = 0;
                let mut slack_left = false;
                if gap > front_gap {
                    let element_movement_available = gap - front_gap;
                    amount = if *movement_left < element_movement_available {
                        *movement_left
                    } else {
                        element_movement_available
                    };
                    *movement_left = *movement_left - amount;
                    self.elements[i].front_gap = gap - amount;
                    slack_left = amount < element_movement_available;
                }
                // The cursor stays on an item until its slack is used up.
                if !slack_left {
                    let next = i + 1;
                    if next >= self.elements.len() {
                        *index = None;
                    } else {
                        *index = NonMaxUsize::new(next);
                    }
                }
                amount
            },
        };
        proof {
            let m = move_from_spec(
                old(self).gaps(),
                opt_index(*old(index)),
                *old(movement_left),
                old(self).separation(),
            )->0;
            assert(self.state().gaps =~= m.0);
            assert(self.items() =~= old(self).items());
        }
        movement_amount
    }

    fn move_element(&mut self, movement_left: &mut u32) -> (moved: u32)
        requires
            move_from_spec(
                old(self).gaps(),
                old(self).state().front_uncompressed,
                *old(movement_left),
                old(self).separation(),
            ) is Some,
        ensures
            ({
                let m = move_from_spec(
                    old(self).gaps(),
                    old(self).state().front_uncompressed,
                    *old(movement_left),
                    old(self).separation(),
                )->0;
                &&& final(self).state() == (BeltState {
                    gaps: m.0,
                    front_uncompressed: m.1,
                    ..old(self).state()
                })
                &&& *final(movement_left) == m.2
                &&& moved == m.3
            }),
            final(self).items() == old(self).items(),
            final(self).props() == old(self).props(),
    {
        let mut front = self.front_uncompressed;
        let movement_amount = self.move_from(&mut front, movement_left);
        self.front_uncompressed = front;
        movement_amount
    }

    /// Hands out up to `decompress_budget` of extra distance to items packed
    /// closer than the separation, starting at `start_index`.
    fn decompress(&mut self, start_index: NonMaxUsize, decompress_budget: u32)
        requires
            decompress_spec(
                old(self).state(),
                old(self).separation(),
                start_index@ as int,
                decompress_budget,
            ) is Some,
        ensures
            final(self).state() == decompress_spec(
                old(self).state(),
                old(self).separation(),
                start_index@ as int,
                decompress_budget,
            )->0,
            final(self).items() == old(self).items(),
            final(self).props() == old(self).props(),
    {
        let ghost goal = decompress_spec(
            old(self).state(),
            old(self).separation(),
            start_index@ as int,
            decompress_budget,
        );
        let mut budget = decompress_budget;
        let len = self.elements.len();
        let mut index = start_index.get();
        let mut out_of_budget = false;
        while index < len && !out_of_budget
            invariant
                len == self.elements@.len(),
                !out_of_budget ==> decompress_spec(self.state(), self.separation(), index as int, budget) == goal,
                out_of_budget ==> Some(self.state()) == goal,
                goal is Some,
                self.items() == old(self).items(),
                self.props() == old(self).props(),
            decreases len - index,
        {
            proof {
                self.lemma_lengths();
            }
            let ghost before = self.state();
            self.next_overcompressed = NonMaxUsize::new(index);
            let gap = self.elements[index].front_gap;
            match self.properties.item_separation().checked_sub(gap) {
                None => {
                    index = index + 1;
                },
                Some(compress_amount) => {
                    let decompress_amount = if compress_amount < budget {
                        compress_amount
                    } else {
                        budget
                    };
                    self.elements[index].front_gap = gap + decompress_amount;
                    budget = budget - decompress_amount;
                    match self.position_index_cache {
                        Some(cache) => {
                            if cache.index == index {
                                self.position_index_cache = Some(
                                    BeltPositionIndex {
                                        position: cache.position + decompress_amount,
                                        index: cache.index,
                                    },
                                );
                            }
                        },
                        None => {},
                    }
                    proof {
                        // The widened gap is in place before the item behind moves.
                        assert(self.state().gaps =~= before.gaps.update(
                            index as int,
                            (gap + decompress_amount) as u32,
                        ));
                    }
                    let mut behind = NonMaxUsize::new(index + 1);
                    let mut amount_left = decompress_amount;
                    self.move_from(&mut behind, &mut amount_left);
                    if budget == 0 {
                        out_of_budget = true;
                    }
                    index = index + 1;
                },
            }
        }
        if !out_of_budget {
            self.next_overcompressed = None;
        }
    }

    /// Advances the belt by one tick: starting at the front cursor, items with
    /// slack beyond the separation move forward, up to the belt's speed in
    /// total; the cursor stays on an item until its slack is used up. Tightly
    /// packed items behind spread out by the distance moved.
    pub fn tick(&mut self)
        requires
            tick_spec(old(self).state(), old(self).separation(), old(self).belt_speed()) is Some,
        ensures
            final(self).state() == tick_spec(
                old(self).state(),
                old(self).separation(),
                old(self).belt_speed(),
            )->0,
            final(self).items() == old(self).items(),
            final(self).props() == old(self).props(),
    {
        let ghost goal = tick_spec(old(self).state(), old(self).separation(), old(self).belt_speed());
        let mut movement_left = self.properties.speed();
        while movement_left > 0
            invariant
                tick_spec(self.state(), self.separation(), movement_left) == goal,
                goal is Some,
                self.items() == old(self).items(),
                self.props() == old(self).props(),
            decreases cursor_measure(self.state().front_uncompressed), movement_left,
        {
            let movement_amount = self.move_element(&mut movement_left);
            match self.next_overcompressed {
                Some(next_overcompressed) => {
                    proof {
                        lemma_decompress_keeps_front(
                            self.state(),
                            self.separation(),
                            next_overcompressed@ as int,
                            movement_amount,
                        );
                    }
                    self.decompress(next_overcompressed, movement_amount);
                },
                None => {},
            }
        }
    }

    /// Puts `item` in slot `index`, `gap_ahead` behind whatever is ahead of the
    /// slot; the item now behind it keeps its position.
    fn insert_ahead(&mut self, index: usize, gap_ahead: u32, item: T)
        requires
            can_insert_ahead(old(self).state(), index as int, gap_ahead),
        ensures
            final(self).state() == insert_ahead_state(old(self).state(), index as int, gap_ahead),
            final(self).items() == old(self).items().insert(index as int, item),
            final(self).props() == old(self).props(),
    {
        proof {
            self.lemma_lengths();
        }
        if index < self.elements.len() {
            self.elements[index].front_gap = self.elements[index].front_gap - gap_ahead;
        }
        match self.position_index_cache {
            Some(cache) => {
                if cache.index > index {
                    self.position_index_cache = Some(
                        BeltPositionIndex { position: cache.position, index: cache.index + 1 },
                    );
                } else if cache.index == index {
                    self.position_index_cache = None;
                }
            },
            None => {},
        }
        self.elements.insert(index, BeltElement { front_gap: gap_ahead, contents: item });
        proof {
            assert(self.state().gaps =~= insert_ahead_state(
                old(self).state(),
                index as int,
                gap_ahead,
            ).gaps);
            assert(self.items() =~= old(self).items().insert(index as int, item));
        }
    }
}

/// A mutable view offers no way to write to the belt: once the view is done
/// with, the belt it borrowed ends exactly as the view saw it.
pub proof fn lemma_view_mut_leaves_belt<'a, T>(v: BeltLineViewMut<'a, T>)
    requires
        has_resolved(v),
    ensures
        *final(v.belt_ref()) == v.belt(),
{
}

impl<T> BeltLine<T> {
    /// The hint for `position`: that position, with the index of the first
    /// item whose back reaches it (0 when none does).
    fn get_hint_for_position(&self, position: u32) -> (hint: BeltPositionIndex)
        requires
            position_search_fits(self.gaps(), position),
        ensures
            hint.position == position,
            hint.index == hint_index_for_position(self.gaps(), position),
            hint.index == 0 || hint.index < self.gaps().len(),
    {
        proof {
            self.lemma_lengths();
        }
        let ghost gaps = self.gaps();
        let mut pos: u32 = 0;
        let mut index: usize = 0;
        let mut found: Option<usize> = None;
        while index < self.elements.len() && found.is_none()
            invariant
                index <= gaps.len(),
                gaps == self.gaps(),
                gaps.len() == self.elements@.len(),
                position_search_fits(gaps, position),
                found is None ==> pos == prefix_sum(gaps, index as int),
                found is None ==> (index == 0 || prefix_sum(gaps, index as int) < position),
                found is None ==> first_reaching(gaps, position as int, 0) == first_reaching(
                    gaps,
                    position as int,
                    index as int,
                ),
                found matches Some(f) ==> f == first_reaching(gaps, position as int, 0) && f
                    < gaps.len(),
            decreases gaps.len() - index,
        {
            proof {
                assert(prefix_sum(gaps, index as int + 1) == prefix_sum(gaps, index as int)
                    + gaps[index as int]);
                if index > 0 {
                    assert(prefix_sum(gaps, index as int + 1) <= u32::MAX);
                } else {
                    assert(prefix_sum(gaps, 0) == 0);
                }
            }
            pos = pos + self.elements[index].front_gap;
            if pos >= position {
                found = Some(index);
            }
            index = index + 1;
        }
        let index = match found {
            Some(f) => f,
            None => 0,
        };
        BeltPositionIndex { position, index }
    }

    /// Searching from the hint's index, the first item whose running
    /// position (starting from the hint's position) passes `position`: its
    /// index counted from the hint's index, and that running position.
    fn find_beyond(&self, hint: BeltPositionIndex, position: u32) -> (r: Option<(usize, u32)>)
        requires
            hint.position <= position,
            beyond_search_fits(self.gaps(), hint.index as int, hint.position as int, position as int),
        ensures
            match r {
                Some((j, ip)) => first_beyond(
                    self.gaps(),
                    hint.index as int,
                    hint.position as int,
                    position as int,
                    hint.index as int,
                ) == Some((j as int, ip as int)),
                None => first_beyond(
                    self.gaps(),
                    hint.index as int,
                    hint.position as int,
                    position as int,
                    hint.index as int,
                ) is None,
            },
    {
        proof {
            self.lemma_lengths();
        }
        let ghost gaps = self.gaps();
        let ghost start = hint.index as int;
        let ghost base = hint.position as int;
        let mut abs: usize = hint.index;
        let mut running: u32 = hint.position;
        let mut found: Option<(usize, u32)> = None;
        while abs < self.elements.len() && found.is_none()
            invariant
                gaps == self.gaps(),
                gaps.len() == self.elements@.len(),
                start == hint.index as int,
                base == hint.position as int,
                start <= abs,
                beyond_search_fits(gaps, start, base, position as int),
                found is None ==> running == base + sum_gaps(gaps, start, abs as int),
                found is None ==> running <= position,
                found is None ==> first_beyond(gaps, start, base, position as int, start)
                    == first_beyond(gaps, start, base, position as int, abs as int),
                found matches Some((j, ip)) ==> first_beyond(
                    gaps,
                    start,
                    base,
                    position as int,
                    start,
                ) == Some((j as int, ip as int)),
            decreases gaps.len() - abs,
        {
            proof {
                assert(sum_gaps(gaps, start, abs as int + 1) == sum_gaps(gaps, start, abs as int)
                    + gaps[abs as int]);
            }
            running = running + self.elements[abs].front_gap;
            if running > position {
                found = Some((abs - hint.index, running));
            }
            abs = abs + 1;
        }
        found
    }

    /// Inserts `item` at `position` using the search hint `hint`.
    fn insert_at_position_with_hint(&mut self, position: u32, item: T, hint: BeltPositionIndex)
        requires
            hint.position == position,
            hint.index == hint_index_for_position(old(self).gaps(), position),
            can_insert_at_position(old(self).state(), position),
        ensures
            final(self).state() == insert_ahead_state(
                old(self).state(),
                insertion_slot(old(self).gaps(), position).0,
                insertion_gap(old(self).gaps(), position) as u32,
            ),
            final(self).items() == old(self).items().insert(
                insertion_slot(old(self).gaps(), position).0,
                item,
            ),
            final(self).props() == old(self).props(),
    {
        proof {
            self.lemma_lengths();
        }
        let (index, item_position) = match self.find_beyond(hint, position) {
            Some(found) => found,
            None => (hint.index, hint.position),
        };
        let ahead_position: u32 = if index < self.elements.len() {
            item_position - self.elements[index].front_gap
        } else {
            0
        };
        let gap_ahead = position - ahead_position;
        self.insert_ahead(index, gap_ahead, item);
    }

    /// Inserts `item` so that the search for `position` places it: the slot is
    /// found by scanning for the first item whose running position passes
    /// `position`, and the inserted item keeps the positions of the others.
    pub fn insert_at_position(&mut self, position: u32, item: T)
        requires
            can_insert_at_position(old(self).state(), position),
        ensures
            final(self).state() == insert_ahead_state(
                old(self).state(),
                insertion_slot(old(self).gaps(), position).0,
                insertion_gap(old(self).gaps(), position) as u32,
            ),
            final(self).items() == old(self).items().insert(
                insertion_slot(old(self).gaps(), position).0,
                item,
            ),
            final(self).props() == old(self).props(),
    {
        let hint = self.get_hint_for_position(position);
        self.insert_at_position_with_hint(position, item, hint);
    }
}

/// A borrowed look at the stretch of a belt between two positions.
pub struct BeltLineView<'a, T> {
    beltline: &'a BeltLine<T>,
    /// Some position before the first element in the location range
    hint: BeltPositionIndex,
    range: BeltLineLocationRange,
}

/// A mutably borrowed look at the stretch of a belt between two positions.
pub struct BeltLineViewMut<'a, T> {
    beltline: &'a mut BeltLine<T>,
    /// Some position before the first element in the location range
    hint: BeltPositionIndex,
    range: BeltLineLocationRange,
}

impl<'a, T> BeltLineView<'a, T> {
    pub closed spec fn belt(&self) -> &'a BeltLine<T> {
        self.beltline
    }

    pub closed spec fn hint_position(&self) -> u32 {
        self.hint.position
    }

    pub closed spec fn hint_index(&self) -> usize {
        self.hint.index
    }

    pub closed spec fn range(&self) -> BeltLineLocationRange {
        self.range
    }
}

impl<'a, T> BeltLineViewMut<'a, T> {
    /// The belt as the view sees it.
    pub closed spec fn belt(&self) -> BeltLine<T> {
        *self.beltline
    }

    /// The borrow the view holds; the belt ends up as this reference does.
    pub closed spec fn belt_ref(&self) -> &'a mut BeltLine<T> {
        self.beltline
    }

    pub closed spec fn hint_position(&self) -> u32 {
        self.hint.position
    }

    pub closed spec fn hint_index(&self) -> usize {
        self.hint.index
    }

    pub closed spec fn range(&self) -> BeltLineLocationRange {
        self.range
    }
}

impl<T> BeltLine<T> {
    /// The hint for item `index`: the position just ahead of its gap (the sum
    /// of the gaps in front of it), or `None` past the last item.
    fn get_hint_for_index(&self, index: usize) -> (hint: Option<BeltPositionIndex>)
        requires
            index < self.gaps().len() ==> prefix_sum(self.gaps(), index as int) <= u32::MAX,
        ensures
            index < self.gaps().len() ==> hint == Some(
                BeltPositionIndex {
                    position: prefix_sum(self.gaps(), index as int) as u32,
                    index,
                },
            ),
            index >= self.gaps().len() ==> hint is None,
    {
        proof {
            self.lemma_lengths();
        }
        if self.elements.len() > index {
            let ghost gaps = self.gaps();
            let mut position: u32 = 0;
            let mut k: usize = 0;
            while k < index
                invariant
                    k <= index < gaps.len(),
                    gaps == self.gaps(),
                    gaps.len() == self.elements@.len(),
                    prefix_sum(gaps, index as int) <= u32::MAX,
                    position == prefix_sum(gaps, k as int),
                decreases index - k,
            {
                proof {
                    lemma_sum_monotone(gaps, 0, k as int + 1, index as int);
                }
                position = position + self.elements[k].front_gap;
                k = k + 1;
            }
            Some(BeltPositionIndex { position, index })
        } else {
            None
        }
    }

    /// The hint for item `index`, counted on from `hint`: the hint's position
    /// plus the gaps from the hint's index up to item `index`, or `None` past
    /// the last item.
    fn get_hint_for_index_with_hint(&self, index: usize, hint: BeltPositionIndex) -> (r: Option<
        BeltPositionIndex,
    >)
        requires
            hint.index <= index,
            index < self.gaps().len() ==> hint.position + sum_gaps(
                self.gaps(),
                hint.index as int,
                index as int,
            ) <= u32::MAX,
        ensures
            index < self.gaps().len() ==> r == Some(
                BeltPositionIndex {
                    position: (hint.position + sum_gaps(
                        self.gaps(),
                        hint.index as int,
                        index as int,
                    )) as u32,
                    index,
                },
            ),
            index >= self.gaps().len() ==> r is None,
    {
        proof {
            self.lemma_lengths();
        }
        if index < self.elements.len() {
            let ghost gaps = self.gaps();
            let mut position: u32 = hint.position;
            let mut k: usize = hint.index;
            while k < index
                invariant
                    hint.index <= k <= index < gaps.len(),
                    gaps == self.gaps(),
                    gaps.len() == self.elements@.len(),
                    hint.position + sum_gaps(gaps, hint.index as int, index as int) <= u32::MAX,
                    position == hint.position + sum_gaps(gaps, hint.index as int, k as int),
                decreases index - k,
            {
                proof {
                    lemma_sum_monotone(gaps, hint.index as int, k as int + 1, index as int);
                }
                position = position + self.elements[k].front_gap;
                k = k + 1;
            }
            Some(BeltPositionIndex { position, index })
        } else {
            None
        }
    }

    /// Every item from the hint's index on, with its running position: the
    /// hint's position plus the gaps from the hint's index up to and including
    /// the item's own.
    fn iter_positions_from_hint(&self, hint: BeltPositionIndex) -> (r: Vec<(u32, &T)>)
        requires
            forall|abs: int|
                hint.index <= abs < self.gaps().len() ==> hint.position + #[trigger] sum_gaps(
                    self.gaps(),
                    hint.index as int,
                    abs + 1,
                ) <= u32::MAX,
        ensures
            r@.len() == (if hint.index < self.gaps().len() {
                self.gaps().len() - hint.index
            } else {
                0
            }),
            forall|j: int|
                0 <= j < r@.len() ==> (#[trigger] r@[j]).0 == hint.position + sum_gaps(
                    self.gaps(),
                    hint.index as int,
                    hint.index + j + 1,
                ) && *r@[j].1 == self.items()[hint.index + j],
    {
        proof {
            self.lemma_lengths();
        }
        let ghost gaps = self.gaps();
        let mut r: Vec<(u32, &T)> = Vec::new();
        let mut position = hint.position;
        let mut abs = hint.index;
        while abs < self.elements.len()
            invariant
                gaps == self.gaps(),
                gaps.len() == self.elements@.len(),
                hint.index <= abs,
                abs > gaps.len() ==> abs == hint.index,
                forall|a: int|
                    hint.index <= a < gaps.len() ==> hint.position + #[trigger] sum_gaps(
                        gaps,
                        hint.index as int,
                        a + 1,
                    ) <= u32::MAX,
                position == hint.position + sum_gaps(gaps, hint.index as int, abs as int),
                r@.len() == abs - hint.index,
                forall|j: int|
                    0 <= j < r@.len() ==> (#[trigger] r@[j]).0 == hint.position + sum_gaps(
                        gaps,
                        hint.index as int,
                        hint.index + j + 1,
                    ) && *r@[j].1 == self.items()[hint.index + j],
            decreases gaps.len() - abs,
        {
            proof {
                assert(sum_gaps(gaps, hint.index as int, abs as int + 1) == sum_gaps(
                    gaps,
                    hint.index as int,
                    abs as int,
                ) + gaps[abs as int]);
            }
            position = position + self.elements[abs].front_gap;
            r.push((position, &self.elements[abs].contents));
            abs = abs + 1;
        }
        r
    }

    /// Every item with its position, front first: the sum of its own gap and
    /// the gaps of every item ahead of it.
    pub fn iter_positions(&self) -> (r: Vec<(u32, &T)>)
        requires
            positions_fit(self.gaps()),
        ensures
            r@.len() == self.gaps().len(),
            forall|j: int|
                0 <= j < r@.len() ==> (#[trigger] r@[j]).0 == belt_positions(self.gaps())[j]
                    && *r@[j].1 == self.items()[j],
    {
        proof {
            self.lemma_lengths();
        }
        let ghost gaps = self.gaps();
        proof {
            assert forall|abs: int| 0 <= abs < gaps.len() implies 0 + #[trigger] sum_gaps(
                gaps,
                0,
                abs + 1,
            ) <= u32::MAX by {
                lemma_sum_monotone(gaps, 0, abs + 1, gaps.len() as int);
            }
        }
        self.iter_positions_from_hint(BeltPositionIndex::zero())
    }
}

impl<T> BeltLine<T> {
    /// Draws the belt into `out`: each item is a `[==]` marker as wide as the
    /// item separation, starting at the item's position; a later item cuts
    /// the picture back to its own position before it is drawn.
    pub fn ascii_art_display_to(&self, out: &mut String)
        requires
            can_draw(self.gaps(), self.separation()),
        ensures
            final(out)@ == ascii_art(belt_positions(self.gaps()), item_marker(self.separation())),
    {
        let ghost bp = belt_positions(self.gaps());
        let positions = self.iter_positions();
        let last_position: u32 = if positions.len() > 0 {
            positions[positions.len() - 1].0
        } else {
            0
        };
        let separation = self.properties.item_separation();
        let cap = last_position + separation;
        let mut marker: Vec<char> = Vec::new();
        marker.push('[');
        let fill = separation as usize - 2;
        let mut k: usize = 0;
        while k < fill
            invariant
                k <= fill,
                marker@ == seq!['['] + Seq::new(k as nat, |i: int| '='),
            decreases fill - k,
        {
            marker.push('=');
            k = k + 1;
            proof {
                assert(marker@ =~= seq!['['] + Seq::new(k as nat, |i: int| '='));
            }
        }
        marker.push(']');
        proof {
            assert(marker@ =~= item_marker(separation));
        }
        let mut canvas: Vec<char> = Vec::with_capacity(cap as usize);
        let mut i: usize = 0;
        while i < positions.len()
            invariant
                i <= positions@.len(),
                positions@.len() == bp.len(),
                forall|j: int| 0 <= j < positions@.len() ==> (#[trigger] positions@[j]).0 == bp[j],
                marker@ == item_marker(separation),
                canvas@ == ascii_art(bp.take(i as int), marker@),
            decreases positions@.len() - i,
        {
            let position = positions[i].0 as usize;
            let ghost before = canvas@;
            canvas.truncate(position);
            let ghost kept = canvas@;
            while canvas.len() < position
                invariant
                    kept.len() <= canvas@.len() <= position,
                    canvas@ == kept + Seq::new((canvas@.len() - kept.len()) as nat, |x: int| ' '),
                decreases position - canvas@.len(),
            {
                canvas.push(' ');
                proof {
                    assert(canvas@ =~= kept + Seq::new(
                        (canvas@.len() - kept.len()) as nat,
                        |x: int| ' ',
                    ));
                }
            }
            let ghost padded = canvas@;
            let mut m: usize = 0;
            while m < marker.len()
                invariant
                    m <= marker@.len(),
                    canvas@ == padded + marker@.take(m as int),
                decreases marker@.len() - m,
            {
                canvas.push(marker[m]);
                m = m + 1;
                proof {
                    assert(canvas@ =~= padded + marker@.take(m as int));
                }
            }
            proof {
                assert(marker@.take(marker@.len() as int) =~= marker@);
                assert(bp.take(i as int + 1).drop_last() =~= bp.take(i as int));
                assert(bp.take(i as int + 1).last() == bp[i as int]);
                assert(canvas@ =~= draw_item(before, bp[i as int], marker@));
            }
            i = i + 1;
        }
        proof {
            assert(bp.take(bp.len() as int) =~= bp);
        }
        *out = string_from_chars(&canvas);
    }

    /// The belt drawn as a new string.
    pub fn ascii_art_display(&self) -> (s: String)
        requires
            can_draw(self.gaps(), self.separation()),
        ensures
            s@ == ascii_art(belt_positions(self.gaps()), item_marker(self.separation())),
    {
        let mut string = String::new();
        self.ascii_art_display_to(&mut string);
        string
    }

    /// A look at the belt between positions `start` and `end` (an `end`
    /// before `start` is raised to `start`).
    pub fn slice_location(&self, start: u32, end: u32) -> (v: BeltLineView<'_, T>)
        requires
            position_search_fits(self.gaps(), start),
        ensures
            v.belt() == self,
            v.hint_position() == start,
            v.hint_index() == hint_index_for_position(self.gaps(), start),
            v.range().start() == start,
            v.range().end() == (if end >= start {
                end
            } else {
                start
            }),
    {
        let hint = self.get_hint_for_position(start);
        BeltLineView {
            beltline: self,
            hint: hint,
            range: BeltLineLocationRange { start, end: if end >= start {
                end
            } else {
                start
            } },
        }
    }

    /// A mutable look at the belt between positions `start` and `end` (an
    /// `end` before `start` is raised to `start`).
    pub fn slice_location_mut(&mut self, start: u32, end: u32) -> (v: BeltLineViewMut<'_, T>)
        requires
            position_search_fits(old(self).gaps(), start),
        ensures
            v.belt() == *old(self),
            *final(self) == *final(v.belt_ref()),
            v.hint_position() == start,
            v.hint_index() == hint_index_for_position(old(self).gaps(), start),
            v.range().start() == start,
            v.range().end() == (if end >= start {
                end
            } else {
                start
            }),
    {
        let hint = self.get_hint_for_position(start);
        BeltLineViewMut {
            beltline: self,
            hint: hint,
            range: BeltLineLocationRange { start, end: if end >= start {
                end
            } else {
                start
            } },
        }
    }

    /// A look at items `start` up to `end`: from the position ahead of item
    /// `start` to the position ahead of item `end`; an `end` past the last
    /// item runs to one past the position ahead of the last item. A `start`
    /// past the last item gives an empty view.
    pub fn slice_index(&self, start: usize, end: usize) -> (v: BeltLineView<'_, T>)
        requires
            start < self.gaps().len() ==> {
                &&& prefix_sum(self.gaps(), start as int) <= u32::MAX
                &&& end < self.gaps().len() ==> prefix_sum(self.gaps(), end as int) <= u32::MAX
                &&& end >= self.gaps().len() ==> prefix_sum(
                    self.gaps(),
                    self.gaps().len() - 1,
                ) + 1 <= u32::MAX
            },
        ensures
            v.belt() == self,
            start < self.gaps().len() ==> {
                &&& v.hint_position() == prefix_sum(self.gaps(), start as int)
                &&& v.hint_index() == start
                &&& v.range().start() == prefix_sum(self.gaps(), start as int)
                &&& v.range().end() == (if end < self.gaps().len() {
                    prefix_sum(self.gaps(), end as int)
                } else {
                    prefix_sum(self.gaps(), self.gaps().len() - 1) + 1
                })
            },
            start >= self.gaps().len() ==> {
                &&& v.hint_position() == 0
                &&& v.hint_index() == 0
                &&& v.range().start() == 0
                &&& v.range().end() == 0
            },
    {
        proof {
            lemma_sum_nonneg(self.gaps(), 0, start as int);
            lemma_sum_nonneg(self.gaps(), 0, end as int);
        }
        match self.get_hint_for_index(start) {
            Some(hint) => {
                let end_pos = match self.get_hint_for_index(end) {
                    Some(end_hint) => end_hint.position,
                    None => {
                        // There is an item on the belt, so the hint for the
                        // last one exists.
                        proof {
                            lemma_sum_split(self.gaps(), 0, start as int, self.gaps().len() - 1);
                            lemma_sum_nonneg(self.gaps(), 0, self.gaps().len() - 1);
                        }
                        match self.get_hint_for_index_with_hint(self.elements.len() - 1, hint) {
                            Some(last_hint) => last_hint.position + 1,
                            None => {
                                proof {
                                    assert(false);
                                }
                                0
                            },
                        }
                    },
                };
                BeltLineView {
                    beltline: self,
                    hint,
                    range: BeltLineLocationRange::new(hint.position..end_pos),
                }
            },
            None => BeltLineView {
                beltline: self,
                hint: BeltPositionIndex::zero(),
                range: BeltLineLocationRange::new(0..0),
            },
        }
    }

    /// A mutable look at items `start` up to `end`, as `slice_index`.
    pub fn slice_index_mut(&mut self, start: usize, end: usize) -> (v: BeltLineViewMut<'_, T>)
        requires
            start < old(self).gaps().len() ==> {
                &&& prefix_sum(old(self).gaps(), start as int) <= u32::MAX
                &&& end < old(self).gaps().len() ==> prefix_sum(old(self).gaps(), end as int) <= u32::MAX
                &&& end >= old(self).gaps().len() ==> prefix_sum(
                    old(self).gaps(),
                    old(self).gaps().len() - 1,
                ) + 1 <= u32::MAX
            },
        ensures
            v.belt() == *old(self),
            *final(self) == *final(v.belt_ref()),
            start < old(self).gaps().len() ==> {
                &&& v.hint_position() == prefix_sum(old(self).gaps(), start as int)
                &&& v.hint_index() == start
                &&& v.range().start() == prefix_sum(old(self).gaps(), start as int)
                &&& v.range().end() == (if end < old(self).gaps().len() {
                    prefix_sum(old(self).gaps(), end as int)
                } else {
                    prefix_sum(old(self).gaps(), old(self).gaps().len() - 1) + 1
                })
            },
            start >= old(self).gaps().len() ==> {
                &&& v.hint_position() == 0
                &&& v.hint_index() == 0
                &&& v.range().start() == 0
                &&& v.range().end() == 0
            },
    {
        proof {
            lemma_sum_nonneg(self.gaps(), 0, start as int);
            lemma_sum_nonneg(self.gaps(), 0, end as int);
        }
        match self.get_hint_for_index(start) {
            Some(hint) => {
                let end_pos = match self.get_hint_for_index(end) {
                    Some(end_hint) => end_hint.position,
                    None => {
                        // There is an item on the belt, so the hint for the
                        // last one exists.
                        proof {
                            lemma_sum_split(self.gaps(), 0, start as int, self.gaps().len() - 1);
                            lemma_sum_nonneg(self.gaps(), 0, self.gaps().len() - 1);
                        }
                        match self.get_hint_for_index_with_hint(self.elements.len() - 1, hint) {
                            Some(last_hint) => last_hint.position + 1,
                            None => {
                                proof {
                                    assert(false);
                                }
                                0
                            },
                        }
                    },
                };
                BeltLineViewMut {
                    beltline: self,
                    hint,
                    range: BeltLineLocationRange::new(hint.position..end_pos),
                }
            },
            None => BeltLineViewMut {
                beltline: self,
                hint: BeltPositionIndex::zero(),
                range: BeltLineLocationRange::new(0..0),
            },
        }
    }
}

struct RollOntoInfo {
    to: Id,
    to_point: u32,
    is_priority: bool,
}

struct PriorityRollFromInfo {
    from: Id,
}

struct BeltLineInfo<T> {
    beltline: BeltLine<T>,
    /// Maybe it doesn't roll onto anything
    roll_onto: Option<RollOntoInfo>,
    roll_from: Option<PriorityRollFromInfo>,
}

/// A set of belt lines, addressed by id, that may feed one another.
pub struct BeltLineSystem<T> {
    beltlines: IdMapper<BeltLineInfo<T>>,
}

impl<T> BeltLineSystem<T> {
    /// Stops the belt `id` from rolling onto any other belt.
    fn disconnect_belt(&mut self, id: Id)
        requires
            old(self).beltlines.wf(),
            id.slot() < old(self).beltlines.slots().len(),
        ensures
            final(self).beltlines.wf(),
            old(self).beltlines@.contains_key(id) ==> final(self).beltlines@ == old(
                self,
            ).beltlines@.insert(id, BeltLineInfo { roll_onto: None, ..old(self).beltlines@[id] }),
            !old(self).beltlines@.contains_key(id) ==> *final(self) == *old(self),
    {
        match self.beltlines.get_mut(id) {
            Some(beltline_info) => {
                beltline_info.roll_onto = None;
                // Reordering is not necessary
            },
            None => {},
        }
    }

    /// Connects belt `from_id` to belt `to_id`; only the priority
    /// (end-to-end) kind of connection exists.
    fn connect_belt(&mut self, from_id: Id, to_id: Id, is_priority: bool)
        requires
            is_priority,
        ensures
            *final(self) == *old(self),
    {
        if is_priority {
            self.end_extend_belt(from_id, to_id);
        }
    }

    fn end_extend_belt(&mut self, from_id: Id, to_id: Id)
        ensures
            *final(self) == *old(self),
    {
    }

    fn sideload_belt(&mut self, from_id: Id, to_id: Id)
        ensures
            *final(self) == *old(self),
    {
    }

    fn tick(&mut self)
        ensures
            *final(self) == *old(self),
    {
    }
}

} // verus!
