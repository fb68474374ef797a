//! The mathematical model of a belt line: the gap in front of each item, the
//! two scan cursors, and the position cache, with the effect of every
//! operation on them.
use vstd::prelude::*;

use crate::util::nonmax::nonmax_of;

verus! {

/// The moving parts of a belt line. `gaps[i]` is the distance between the
/// back of item `i` and whatever is in front of it; item 0 is the front.
#[verifier::ext_equal]
pub struct BeltState {
    pub gaps: Seq<u32>,
    /// Index of the front-most item that may still move forward.
    pub front_uncompressed: Option<nat>,
    /// Where the scan for items packed closer than the separation resumes.
    pub next_overcompressed: Option<nat>,
    /// A remembered (position, index) pair.
    pub cache: Option<(u32, nat)>,
}

/// `gaps[from] + ... + gaps[to - 1]`.
pub open spec fn sum_gaps(gaps: Seq<u32>, from: int, to: int) -> int
    decreases to - from,
{
    if to <= from {
        0
    } else {
        sum_gaps(gaps, from, to - 1) + gaps[to - 1]
    }
}

/// The sum of the first `k` gaps: the position of the back of item `k - 1`.
pub open spec fn prefix_sum(gaps: Seq<u32>, k: int) -> int {
    sum_gaps(gaps, 0, k)
}

/// The smaller of two numbers.
pub open spec fn min_int(a: int, b: int) -> int {
    if a < b {
        a
    } else {
        b
    }
}

// ---------------------------------------------------------------------------
// Looking up positions
// ---------------------------------------------------------------------------
/// The first index `k >= from` whose back reaches `position`
/// (`prefix_sum(gaps, k + 1) >= position`), or 0 when there is none.
pub open spec fn first_reaching(gaps: Seq<u32>, position: int, from: int) -> int
    decreases gaps.len() - from,
{
    if from < 0 || from >= gaps.len() {
        0
    } else if prefix_sum(gaps, from + 1) >= position {
        from
    } else {
        first_reaching(gaps, position, from + 1)
    }
}

/// The index of the first item whose back reaches `position`, or 0.
pub open spec fn hint_index_for_position(gaps: Seq<u32>, position: u32) -> int {
    first_reaching(gaps, position as int, 0)
}

/// The running sums that the search for `position` computes all fit in a `u32`.
pub open spec fn position_search_fits(gaps: Seq<u32>, position: u32) -> bool {
    forall|k: int|
        0 <= k < gaps.len() && #[trigger] prefix_sum(gaps, k) < position ==> prefix_sum(
            gaps,
            k + 1,
        ) <= u32::MAX
}

/// Counting from `start` with `base` added, the first item (at `abs >= start`)
/// whose running position passes `position`: its index relative to `start`
/// and its running position.
pub open spec fn first_beyond(gaps: Seq<u32>, start: int, base: int, position: int, abs: int) -> Option<
    (int, int),
>
    decreases gaps.len() - abs,
{
    if abs < start || abs >= gaps.len() {
        None
    } else if base + sum_gaps(gaps, start, abs + 1) > position {
        Some((abs - start, base + sum_gaps(gaps, start, abs + 1)))
    } else {
        first_beyond(gaps, start, base, position, abs + 1)
    }
}

/// The running positions that the search past `position` computes all fit in a `u32`.
pub open spec fn beyond_search_fits(gaps: Seq<u32>, start: int, base: int, position: int) -> bool {
    forall|abs: int|
        start <= abs < gaps.len() && base + #[trigger] sum_gaps(gaps, start, abs) <= position
            ==> base + sum_gaps(gaps, start, abs + 1) <= u32::MAX
}

// ---------------------------------------------------------------------------
// Inserting
// ---------------------------------------------------------------------------
/// The gaps after putting an item `gap_ahead` behind the item ahead of slot
/// `index`: the item now behind it keeps its position.
pub open spec fn insert_ahead_gaps(gaps: Seq<u32>, index: int, gap_ahead: u32) -> Seq<u32> {
    let shortened = if index < gaps.len() {
        gaps.update(index, (gaps[index] - gap_ahead) as u32)
    } else {
        gaps
    };
    shortened.insert(index, gap_ahead)
}

/// The cache after an insertion at `index`: entries behind shift back one,
/// an entry at `index` is dropped.
pub open spec fn insert_ahead_cache(cache: Option<(u32, nat)>, index: int) -> Option<(u32, nat)> {
    match cache {
        Some((p, ci)) => if ci > index {
            Some((p, ci + 1))
        } else if ci == index {
            None
        } else {
            Some((p, ci))
        },
        None => None,
    }
}

/// The state after an insertion at `index`; the cursors stay as they were.
pub open spec fn insert_ahead_state(st: BeltState, index: int, gap_ahead: u32) -> BeltState {
    BeltState {
        gaps: insert_ahead_gaps(st.gaps, index, gap_ahead),
        cache: insert_ahead_cache(st.cache, index),
        ..st
    }
}

/// An insertion at `index` with `gap_ahead` does not panic.
pub open spec fn can_insert_ahead(st: BeltState, index: int, gap_ahead: u32) -> bool {
    &&& 0 <= index <= st.gaps.len()
    &&& index < st.gaps.len() ==> gap_ahead <= st.gaps[index]
    &&& st.cache matches Some((p, ci)) ==> (ci > index ==> ci + 1 <= usize::MAX)
}

/// The slot that an insertion at `position` picks, with the running position
/// found there: the search starts at the hint for `position` and stops at the
/// first item whose running position passes `position`; the slot is that item's
/// index counted from the hint.
pub open spec fn insertion_slot(gaps: Seq<u32>, position: u32) -> (int, int) {
    let h = hint_index_for_position(gaps, position);
    match first_beyond(gaps, h, position as int, position as int, h) {
        Some(found) => found,
        None => (h, position as int),
    }
}

/// The position of whatever is ahead of the chosen slot.
pub open spec fn insertion_ahead_position(gaps: Seq<u32>, position: u32) -> int {
    let (index, item_position) = insertion_slot(gaps, position);
    if index < gaps.len() {
        item_position - gaps[index]
    } else {
        0
    }
}

/// The gap the inserted item gets in front of it.
pub open spec fn insertion_gap(gaps: Seq<u32>, position: u32) -> int {
    position - insertion_ahead_position(gaps, position)
}

/// An insertion at `position` does not panic.
pub open spec fn can_insert_at_position(st: BeltState, position: u32) -> bool {
    let gaps = st.gaps;
    let h = hint_index_for_position(gaps, position);
    let (index, item_position) = insertion_slot(gaps, position);
    &&& position_search_fits(gaps, position)
    &&& beyond_search_fits(gaps, h, position as int, position as int)
    &&& index < gaps.len() ==> item_position >= gaps[index]
    &&& insertion_ahead_position(gaps, position) <= position
    &&& can_insert_ahead(st, index, insertion_gap(gaps, position) as u32)
}

// ---------------------------------------------------------------------------
// Taking and appending
// ---------------------------------------------------------------------------
/// The gaps after removing item `index`: the item behind it takes over its gap
/// as well, so it keeps its position.
pub open spec fn take_gaps(gaps: Seq<u32>, index: int) -> Seq<u32> {
    if index + 1 < gaps.len() {
        gaps.remove(index).update(index, (gaps[index] + gaps[index + 1]) as u32)
    } else {
        gaps.remove(index)
    }
}

/// Removing item `index` does not overflow the gap of the item behind it.
pub open spec fn can_take(gaps: Seq<u32>, index: int) -> bool {
    0 <= index && index + 1 < gaps.len() ==> gaps[index] + gaps[index + 1] <= u32::MAX
}

/// The state after appending an item `distance` behind the last one.
pub open spec fn append_state(st: BeltState, distance: u32, separation: u32) -> BeltState {
    let new_len = st.gaps.len() as int + 1;
    BeltState {
        gaps: st.gaps.push(distance),
        front_uncompressed: if distance > separation && st.front_uncompressed is None {
            nonmax_of(new_len)
        } else {
            st.front_uncompressed
        },
        next_overcompressed: if distance < separation && st.front_uncompressed is Some
            && st.next_overcompressed is None {
            nonmax_of(new_len)
        } else {
            st.next_overcompressed
        },
        cache: st.cache,
    }
}

// ---------------------------------------------------------------------------
// Ticking
// ---------------------------------------------------------------------------
/// The cursor after handling item `i`: the next item, if there is one.
pub open spec fn advance_cursor(len: int, i: int) -> Option<nat> {
    if i + 1 >= len {
        None
    } else {
        nonmax_of(i + 1)
    }
}

/// The cursor after item `i` moved by `amount`: it stays on the item while
/// the item still has slack beyond the separation, and moves on otherwise.
pub open spec fn cursor_after_move(gaps: Seq<u32>, i: int, amount: u32, separation: u32) -> Option<
    nat,
> {
    if gaps[i] - amount > separation {
        Some(i as nat)
    } else {
        advance_cursor(gaps.len() as int, i)
    }
}

/// How far item `i` moves when `left` movement is available: as far as it can
/// without closing its gap below `separation`.
pub open spec fn move_amount(gaps: Seq<u32>, i: int, left: u32, separation: u32) -> u32 {
    if gaps[i] > separation {
        min_int(left as int, gaps[i] - separation) as u32
    } else {
        0
    }
}

/// Moving the item under `cursor`: `None` where the code would index past the
/// end; otherwise the new gaps, the cursor (kept on the item while it has
/// slack left, advanced otherwise), the movement left, and the amount moved.
pub open spec fn move_from_spec(gaps: Seq<u32>, cursor: Option<nat>, left: u32, separation: u32) -> Option<
    (Seq<u32>, Option<nat>, u32, u32),
> {
    match cursor {
        None => Some((gaps, None, left, 0u32)),
        Some(i) => if i >= gaps.len() {
            None
        } else {
            let amount = move_amount(gaps, i as int, left, separation);
            Some(
                (
                    gaps.update(i as int, (gaps[i as int] - amount) as u32),
                    cursor_after_move(gaps, i as int, amount, separation),
                    (left - amount) as u32,
                    amount,
                ),
            )
        },
    }
}

/// The cache after item `index` is pushed back by `amount`.
pub open spec fn shift_cache(cache: Option<(u32, nat)>, index: int, amount: u32) -> Option<
    (u32, nat),
> {
    match cache {
        Some((p, ci)) => if ci == index {
            Some(((p + amount) as u32, ci))
        } else {
            Some((p, ci))
        },
        None => None,
    }
}

pub open spec fn shift_cache_fits(cache: Option<(u32, nat)>, index: int, amount: u32) -> bool {
    cache matches Some((p, ci)) ==> (ci == index ==> p + amount <= u32::MAX)
}

/// Spreading out items packed closer than `separation`, from item `index` on,
/// with `budget` of extra distance to hand out. `None` where the code panics.
pub open spec fn decompress_spec(st: BeltState, separation: u32, index: int, budget: u32) -> Option<
    BeltState,
>
    decreases st.gaps.len() - index,
{
    if index < 0 || index >= st.gaps.len() {
        Some(BeltState { next_overcompressed: None, ..st })
    } else {
        let g = st.gaps[index];
        if g > separation {
            decompress_spec(
                BeltState { next_overcompressed: nonmax_of(index), ..st },
                separation,
                index + 1,
                budget,
            )
        } else {
            let d = min_int(separation - g, budget as int) as u32;
            let widened = st.gaps.update(index, (g + d) as u32);
            if !shift_cache_fits(st.cache, index, d) {
                None
            } else {
                match move_from_spec(widened, nonmax_of(index + 1), d, separation) {
                    None => None,
                    Some(moved) => {
                        let next = BeltState {
                            gaps: moved.0,
                            front_uncompressed: st.front_uncompressed,
                            next_overcompressed: nonmax_of(index),
                            cache: shift_cache(st.cache, index, d),
                        };
                        if budget - d == 0 {
                            Some(next)
                        } else {
                            decompress_spec(next, separation, index + 1, (budget - d) as u32)
                        }
                    },
                }
            }
        }
    }
}

pub open spec fn cursor_measure(cursor: Option<nat>) -> nat {
    match cursor {
        Some(i) => if i < usize::MAX {
            (usize::MAX - i) as nat
        } else {
            0
        },
        None => 0,
    }
}

/// One tick with `left` movement still to hand out. `None` where the code
/// panics or never finishes (movement left over once every item has been
/// visited).
pub open spec fn tick_spec(st: BeltState, separation: u32, left: u32) -> Option<BeltState>
    decreases cursor_measure(st.front_uncompressed), left,
{
    if left == 0 {
        Some(st)
    } else {
        match st.front_uncompressed {
            None => None,
            Some(i) => if i >= st.gaps.len() || i >= usize::MAX {
                None
            } else {
                let amount = move_amount(st.gaps, i as int, left, separation);
                let gaps1 = st.gaps.update(i as int, (st.gaps[i as int] - amount) as u32);
                let cursor1 = cursor_after_move(st.gaps, i as int, amount, separation);
                let st1 = BeltState { gaps: gaps1, front_uncompressed: cursor1, ..st };
                let st2 = match st1.next_overcompressed {
                    Some(n) => decompress_spec(st1, separation, n as int, amount),
                    None => Some(st1),
                };
                match st2 {
                    None => None,
                    Some(s2) => tick_spec(
                        BeltState { front_uncompressed: cursor1, ..s2 },
                        separation,
                        (left - amount) as u32,
                    ),
                }
            },
        }
    }
}

// ---------------------------------------------------------------------------
// Drawing
// ---------------------------------------------------------------------------
/// The position of each item: the back of item `j` sits the sum of the gaps
/// of items `0..=j` behind the front of the belt.
pub open spec fn belt_positions(gaps: Seq<u32>) -> Seq<int> {
    Seq::new(gaps.len(), |j: int| prefix_sum(gaps, j + 1))
}

/// All positions fit in a `u32`.
pub open spec fn positions_fit(gaps: Seq<u32>) -> bool {
    prefix_sum(gaps, gaps.len() as int) <= u32::MAX
}

/// The last reported position, or 0 on an empty belt.
pub open spec fn last_position(gaps: Seq<u32>) -> int {
    if gaps.len() > 0 {
        belt_positions(gaps).last()
    } else {
        0
    }
}

/// Drawing the belt does not panic: the marker needs a separation of at least
/// 2, and the positions plus one separation must fit in a `u32`.
pub open spec fn can_draw(gaps: Seq<u32>, separation: u32) -> bool {
    &&& separation >= 2
    &&& positions_fit(gaps)
    &&& last_position(gaps) + separation <= u32::MAX
}

/// The marker drawn for one item: `[`, then `=` up to the separation, then `]`.
pub open spec fn item_marker(separation: u32) -> Seq<char> {
    seq!['['] + Seq::new((separation - 2) as nat, |i: int| '=') + seq![']']
}

/// Drawing one item at `position`: cut the picture back to `position`, pad
/// with spaces up to it, then draw the marker.
pub open spec fn draw_item(canvas: Seq<char>, position: int, marker: Seq<char>) -> Seq<char> {
    let kept = if position < canvas.len() {
        canvas.take(position)
    } else {
        canvas
    };
    kept + Seq::new((position - kept.len()) as nat, |i: int| ' ') + marker
}

/// The picture of items drawn at `positions`, in order.
pub open spec fn ascii_art(positions: Seq<int>, marker: Seq<char>) -> Seq<char>
    decreases positions.len(),
{
    if positions.len() == 0 {
        Seq::empty()
    } else {
        draw_item(ascii_art(positions.drop_last(), marker), positions.last(), marker)
    }
}

// ---------------------------------------------------------------------------
// Lemmas
// ---------------------------------------------------------------------------
pub proof fn lemma_sum_split(gaps: Seq<u32>, a: int, b: int, c: int)
    requires
        a <= b <= c,
    ensures
        sum_gaps(gaps, a, c) == sum_gaps(gaps, a, b) + sum_gaps(gaps, b, c),
    decreases c - b,
{
    if b < c {
        lemma_sum_split(gaps, a, b, c - 1);
    }
}

pub proof fn lemma_sum_single(gaps: Seq<u32>, a: int)
    ensures
        sum_gaps(gaps, a, a + 1) == gaps[a],
{
    assert(sum_gaps(gaps, a, a) == 0);
}

pub proof fn lemma_sum_nonneg(gaps: Seq<u32>, a: int, b: int)
    ensures
        sum_gaps(gaps, a, b) >= 0,
    decreases b - a,
{
    if a < b {
        lemma_sum_nonneg(gaps, a, b - 1);
    }
}

pub proof fn lemma_sum_monotone(gaps: Seq<u32>, a: int, b: int, c: int)
    requires
        a <= b <= c,
    ensures
        sum_gaps(gaps, a, b) <= sum_gaps(gaps, a, c),
{
    lemma_sum_split(gaps, a, b, c);
    lemma_sum_nonneg(gaps, b, c);
}

/// Sums over the same stretch of two sequences that agree there are equal.
pub proof fn lemma_sum_agree(g1: Seq<u32>, g2: Seq<u32>, a: int, b: int, off: int)
    requires
        forall|k: int| a <= k < b ==> g1[k] == g2[k + off],
    ensures
        sum_gaps(g1, a, b) == sum_gaps(g2, a + off, b + off),
    decreases b - a,
{
    if a < b {
        lemma_sum_agree(g1, g2, a, b - 1, off);
    }
}

/// Spreading items out never touches the front cursor or the number of items.
pub proof fn lemma_decompress_keeps_front(st: BeltState, separation: u32, index: int, budget: u32)
    requires
        decompress_spec(st, separation, index, budget) is Some,
    ensures
        ({
            let r = decompress_spec(st, separation, index, budget)->0;
            &&& r.front_uncompressed == st.front_uncompressed
            &&& r.gaps.len() == st.gaps.len()
        }),
    decreases st.gaps.len() - index,
{
    if index < 0 || index >= st.gaps.len() {
    } else {
        let g = st.gaps[index];
        if g > separation {
            lemma_decompress_keeps_front(
                BeltState { next_overcompressed: nonmax_of(index), ..st },
                separation,
                index + 1,
                budget,
            );
        } else {
            let d = min_int(separation - g, budget as int) as u32;
            let widened = st.gaps.update(index, (g + d) as u32);
            let moved = move_from_spec(widened, nonmax_of(index + 1), d, separation)->0;
            let next = BeltState {
                gaps: moved.0,
                front_uncompressed: st.front_uncompressed,
                next_overcompressed: nonmax_of(index),
                cache: shift_cache(st.cache, index, d),
            };
            if budget - d != 0 {
                lemma_decompress_keeps_front(next, separation, index + 1, (budget - d) as u32);
            }
        }
    }
}

// ---------------------------------------------------------------------------
// Laws
// ---------------------------------------------------------------------------
/// Taking an item off the belt leaves every other item where it was: items
/// ahead of it keep their positions, and each item behind it, now one index
/// further forward, keeps its position too.
pub proof fn lemma_take_keeps_positions(gaps: Seq<u32>, index: int)
    requires
        0 <= index < gaps.len(),
        can_take(gaps, index),
    ensures
        take_gaps(gaps, index).len() == gaps.len() - 1,
        forall|k: int|
            0 <= k < index ==> #[trigger] prefix_sum(take_gaps(gaps, index), k + 1) == prefix_sum(
                gaps,
                k + 1,
            ),
        forall|k: int|
            index <= k < gaps.len() - 1 ==> #[trigger] prefix_sum(take_gaps(gaps, index), k + 1)
                == prefix_sum(gaps, k + 2),
{
    let t = take_gaps(gaps, index);
    assert forall|k: int| 0 <= k < index implies #[trigger] prefix_sum(t, k + 1) == prefix_sum(
        gaps,
        k + 1,
    ) by {
        lemma_sum_agree(t, gaps, 0, k + 1, 0);
    }
    assert forall|k: int| index <= k < gaps.len() - 1 implies #[trigger] prefix_sum(t, k + 1)
        == prefix_sum(gaps, k + 2) by {
        lemma_sum_agree(t, gaps, 0, index, 0);
        lemma_sum_split(t, 0, index, k + 1);
        lemma_sum_split(t, index, index + 1, k + 1);
        lemma_sum_agree(t, gaps, index + 1, k + 1, 1);
        lemma_sum_split(gaps, 0, index, k + 2);
        lemma_sum_split(gaps, index, index + 2, k + 2);
        lemma_sum_single(t, index);
        lemma_sum_single(gaps, index);
    }
}

/// Putting an item in slot `index` leaves every other item where it was, and
/// the new item sits `gap_ahead` behind the position ahead of the slot.
pub proof fn lemma_insert_keeps_positions(gaps: Seq<u32>, index: int, gap_ahead: u32)
    requires
        0 <= index <= gaps.len(),
        index < gaps.len() ==> gap_ahead <= gaps[index],
    ensures
        insert_ahead_gaps(gaps, index, gap_ahead).len() == gaps.len() + 1,
        forall|k: int|
            0 <= k < index ==> #[trigger] prefix_sum(insert_ahead_gaps(gaps, index, gap_ahead), k + 1)
                == prefix_sum(gaps, k + 1),
        prefix_sum(insert_ahead_gaps(gaps, index, gap_ahead), index + 1) == prefix_sum(gaps, index)
            + gap_ahead,
        forall|k: int|
            index <= k < gaps.len() ==> #[trigger] prefix_sum(
                insert_ahead_gaps(gaps, index, gap_ahead),
                k + 2,
            ) == prefix_sum(gaps, k + 1),
{
    let n = insert_ahead_gaps(gaps, index, gap_ahead);
    assert forall|k: int| 0 <= k < index implies #[trigger] prefix_sum(n, k + 1) == prefix_sum(
        gaps,
        k + 1,
    ) by {
        lemma_sum_agree(n, gaps, 0, k + 1, 0);
    }
    lemma_sum_agree(n, gaps, 0, index, 0);
    assert(prefix_sum(n, index + 1) == prefix_sum(gaps, index) + gap_ahead);
    assert forall|k: int| index <= k < gaps.len() implies #[trigger] prefix_sum(n, k + 2)
        == prefix_sum(gaps, k + 1) by {
        lemma_sum_split(n, 0, index + 1, k + 2);
        lemma_sum_split(n, index + 1, index + 2, k + 2);
        lemma_sum_agree(n, gaps, index + 2, k + 2, -1);
        lemma_sum_split(gaps, 0, index, k + 1);
        lemma_sum_split(gaps, index, index + 1, k + 1);
        lemma_sum_single(n, index + 1);
        lemma_sum_single(gaps, index);
    }
}

/// Taking the item just put in slot `index` gives back the gaps as they were.
pub proof fn lemma_insert_then_take(gaps: Seq<u32>, index: int, gap_ahead: u32)
    requires
        0 <= index <= gaps.len(),
        index < gaps.len() ==> gap_ahead <= gaps[index],
    ensures
        can_take(insert_ahead_gaps(gaps, index, gap_ahead), index),
        take_gaps(insert_ahead_gaps(gaps, index, gap_ahead), index) == gaps,
{
    assert(take_gaps(insert_ahead_gaps(gaps, index, gap_ahead), index) =~= gaps);
}

/// The positions `iter_positions` reports never decrease from front to back.
pub proof fn lemma_positions_nondecreasing(gaps: Seq<u32>, i: int, j: int)
    requires
        0 <= i <= j < gaps.len(),
    ensures
        belt_positions(gaps)[i] <= belt_positions(gaps)[j],
{
    lemma_sum_monotone(gaps, 0, i + 1, j + 1);
}

/// The marker for one item is exactly as wide as the separation.
pub proof fn lemma_marker_width(separation: u32)
    requires
        separation >= 2,
    ensures
        item_marker(separation).len() == separation,
{
}

/// A drawing ends with the last item's marker: its length is the last
/// position plus the marker's width (what the drawing code reserves).
pub proof fn lemma_art_length(positions: Seq<int>, marker: Seq<char>)
    requires
        positions.len() > 0,
        forall|k: int| 0 <= k < positions.len() ==> #[trigger] positions[k] >= 0,
    ensures
        ascii_art(positions, marker).len() == positions.last() + marker.len(),
{
    let prev = ascii_art(positions.drop_last(), marker);
    let p = positions.last();
    let kept = if p < prev.len() {
        prev.take(p)
    } else {
        prev
    };
    assert(kept.len() <= p);
}

/// Moving an item only uses up the slack beyond the separation: it never
/// moves more than the movement left, and a gap wider than the separation is
/// never closed below it, while a narrower one is left alone.
pub proof fn lemma_move_respects_separation(gaps: Seq<u32>, i: int, left: u32, separation: u32)
    requires
        0 <= i < gaps.len(),
    ensures
        ({
            let m = move_from_spec(gaps, Some(i as nat), left, separation)->0;
            &&& m.3 <= left
            &&& m.2 == left - m.3
            &&& m.0.len() == gaps.len()
            &&& gaps[i] > separation ==> m.0[i] >= separation
            &&& gaps[i] <= separation ==> m.0 == gaps
            &&& forall|k: int| 0 <= k < gaps.len() && k != i ==> m.0[k] == gaps[k]
        }),
{
    let m = move_from_spec(gaps, Some(i as nat), left, separation)->0;
    if gaps[i] <= separation {
        assert(m.0 =~= gaps);
    }
}

/// A tick never changes how many items are on the belt.
pub proof fn lemma_tick_keeps_length(st: BeltState, separation: u32, left: u32)
    requires
        tick_spec(st, separation, left) is Some,
    ensures
        tick_spec(st, separation, left)->0.gaps.len() == st.gaps.len(),
    decreases cursor_measure(st.front_uncompressed), left,
{
    if left != 0 {
        let i = st.front_uncompressed->0;
        let amount = move_amount(st.gaps, i as int, left, separation);
        let gaps1 = st.gaps.update(i as int, (st.gaps[i as int] - amount) as u32);
        let cursor1 = cursor_after_move(st.gaps, i as int, amount, separation);
        let st1 = BeltState { gaps: gaps1, front_uncompressed: cursor1, ..st };
        let s2 = match st1.next_overcompressed {
            Some(n) => {
                lemma_decompress_keeps_front(st1, separation, n as int, amount);
                decompress_spec(st1, separation, n as int, amount)->0
            },
            None => st1,
        };
        lemma_tick_keeps_length(
            BeltState { front_uncompressed: cursor1, ..s2 },
            separation,
            (left - amount) as u32,
        );
    }
}

/// A belt with nothing left to move is unchanged by a tick with no movement,
/// and a tick with movement on such a belt never finishes.
pub proof fn lemma_asleep_tick(st: BeltState, separation: u32, left: u32)
    requires
        st.front_uncompressed is None,
    ensures
        left == 0 ==> tick_spec(st, separation, left) == Some(st),
        left > 0 ==> tick_spec(st, separation, left) is None,
{
}

/// Inserting an item at a position and then taking the item from the slot it
/// went to gives back that item and leaves the belt's gaps and items as they
/// were.
pub proof fn lemma_insert_at_position_then_take<T>(
    st: BeltState,
    items: Seq<T>,
    position: u32,
    item: T,
)
    requires
        can_insert_at_position(st, position),
        items.len() == st.gaps.len(),
    ensures
        ({
            let index = insertion_slot(st.gaps, position).0;
            let gap = insertion_gap(st.gaps, position) as u32;
            let after = insert_ahead_state(st, index, gap);
            &&& 0 <= index <= st.gaps.len()
            &&& can_take(after.gaps, index)
            &&& take_gaps(after.gaps, index) == st.gaps
            &&& items.insert(index, item)[index] == item
            &&& items.insert(index, item).remove(index) == items
        }),
{
    let index = insertion_slot(st.gaps, position).0;
    let gap = insertion_gap(st.gaps, position) as u32;
    lemma_insert_then_take(st.gaps, index, gap);
    assert(items.insert(index, item).remove(index) =~= items);
}

/// The state of a new, empty belt.
pub open spec fn empty_state() -> BeltState {
    BeltState {
        gaps: Seq::empty(),
        front_uncompressed: None,
        next_overcompressed: None,
        cache: None,
    }
}

/// The state after appending `n` items, each `distance` behind the one
/// before.
pub open spec fn append_many(st: BeltState, distance: u32, separation: u32, n: nat) -> BeltState
    decreases n,
{
    if n == 0 {
        st
    } else {
        append_state(append_many(st, distance, separation, (n - 1) as nat), distance, separation)
    }
}

/// The state after `m` ticks, if none of them panics or runs forever.
pub open spec fn tick_times(st: BeltState, separation: u32, speed: u32, m: nat) -> Option<
    BeltState,
>
    decreases m,
{
    if m == 0 {
        Some(st)
    } else {
        match tick_times(st, separation, speed, (m - 1) as nat) {
            Some(s) => tick_spec(s, separation, speed),
            None => None,
        }
    }
}

/// The state of `n` items spaced one past the separation after `m` ticks at
/// speed 1: items 1 to `m` have closed up to the separation.
pub open spec fn spaced_after(separation: u32, n: nat, m: nat) -> BeltState {
    BeltState {
        gaps: Seq::new(
            n,
            |j: int|
                if 1 <= j <= m {
                    separation
                } else {
                    (separation + 1) as u32
                },
        ),
        front_uncompressed: if m + 1 < n {
            Some((m + 1) as nat)
        } else {
            None
        },
        next_overcompressed: None,
        cache: None,
    }
}

proof fn lemma_append_spaced(separation: u32, n: nat)
    requires
        separation < u32::MAX,
        1 <= n < usize::MAX,
    ensures
        append_many(empty_state(), (separation + 1) as u32, separation, n) == (BeltState {
            front_uncompressed: Some(1),
            ..spaced_after(separation, n, 0)
        }),
    decreases n,
{
    let d = (separation + 1) as u32;
    let prev = append_many(empty_state(), d, separation, (n - 1) as nat);
    if n > 1 {
        lemma_append_spaced(separation, (n - 1) as nat);
        assert(prev.gaps.push(d) =~= spaced_after(separation, n, 0).gaps);
    } else {
        assert(prev.gaps.push(d) =~= spaced_after(separation, n, 0).gaps);
    }
}

proof fn lemma_spaced_tick(separation: u32, n: nat, m: nat)
    requires
        separation < u32::MAX,
        1 <= n < usize::MAX,
        m + 1 < n,
    ensures
        tick_spec(spaced_after(separation, n, m), separation, 1) == Some(
            spaced_after(separation, n, m + 1),
        ),
{
    let st = spaced_after(separation, n, m);
    let i = m + 1;
    assert(move_amount(st.gaps, i as int, 1, separation) == 1);
    let gaps1 = st.gaps.update(i as int, separation);
    assert(gaps1 =~= spaced_after(separation, n, m + 1).gaps);
    let st1 = BeltState {
        gaps: gaps1,
        front_uncompressed: cursor_after_move(st.gaps, i as int, 1, separation),
        ..st
    };
    assert(tick_spec(st1, separation, 0) == Some(st1));
}

/// A belt of `n >= 2` items, each one past the separation behind the one
/// before, settles after exactly `n - 1` ticks at speed 1: every earlier tick
/// leaves something still to move, and the last one leaves the belt asleep.
pub proof fn lemma_spaced_items_settle(separation: u32, n: nat, m: nat)
    requires
        separation < u32::MAX,
        2 <= n < usize::MAX,
        m <= n - 1,
    ensures
        ({
            let start = append_many(empty_state(), (separation + 1) as u32, separation, n);
            &&& tick_times(start, separation, 1, m) is Some
            &&& m < n - 1 ==> tick_times(start, separation, 1, m)->0.front_uncompressed is Some
            &&& m == n - 1 ==> tick_times(start, separation, 1, m)->0.front_uncompressed is None
        }),
{
    lemma_ticks_from_spaced(separation, n, m);
}

proof fn lemma_ticks_from_spaced(separation: u32, n: nat, m: nat)
    requires
        separation < u32::MAX,
        2 <= n < usize::MAX,
        m <= n - 1,
    ensures
        tick_times(
            append_many(empty_state(), (separation + 1) as u32, separation, n),
            separation,
            1,
            m,
        ) == Some(spaced_after(separation, n, m)),
    decreases m,
{
    let start = append_many(empty_state(), (separation + 1) as u32, separation, n);
    lemma_append_spaced(separation, n);
    if m == 0 {
        assert(start =~= spaced_after(separation, n, 0));
    } else {
        lemma_ticks_from_spaced(separation, n, (m - 1) as nat);
        lemma_spaced_tick(separation, n, (m - 1) as nat);
    }
}

/// No gap of `after` is smaller than the same gap of `before`, or than the
/// separation if that is smaller.
pub open spec fn no_closer(before: Seq<u32>, after: Seq<u32>, separation: u32) -> bool {
    &&& after.len() == before.len()
    &&& forall|k: int|
        0 <= k < before.len() ==> #[trigger] after[k] >= min_int(before[k] as int, separation as int)
}

proof fn lemma_move_no_closer(gaps: Seq<u32>, cursor: Option<nat>, left: u32, separation: u32)
    requires
        move_from_spec(gaps, cursor, left, separation) is Some,
    ensures
        ({
            let m = move_from_spec(gaps, cursor, left, separation)->0;
            no_closer(gaps, m.0, separation)
        }),
{
}

proof fn lemma_decompress_no_closer(st: BeltState, separation: u32, index: int, budget: u32)
    requires
        decompress_spec(st, separation, index, budget) is Some,
    ensures
        no_closer(st.gaps, decompress_spec(st, separation, index, budget)->0.gaps, separation),
    decreases st.gaps.len() - index,
{
    if index < 0 || index >= st.gaps.len() {
    } else {
        let g = st.gaps[index];
        if g > separation {
            lemma_decompress_no_closer(
                BeltState { next_overcompressed: nonmax_of(index), ..st },
                separation,
                index + 1,
                budget,
            );
        } else {
            let d = min_int(separation - g, budget as int) as u32;
            let widened = st.gaps.update(index, (g + d) as u32);
            lemma_move_no_closer(widened, nonmax_of(index + 1), d, separation);
            let moved = move_from_spec(widened, nonmax_of(index + 1), d, separation)->0;
            let next = BeltState {
                gaps: moved.0,
                front_uncompressed: st.front_uncompressed,
                next_overcompressed: nonmax_of(index),
                cache: shift_cache(st.cache, index, d),
            };
            assert(no_closer(st.gaps, moved.0, separation)) by {
                assert forall|k: int| 0 <= k < st.gaps.len() implies #[trigger] moved.0[k]
                    >= min_int(st.gaps[k] as int, separation as int) by {
                    assert(moved.0[k] >= min_int(widened[k] as int, separation as int));
                }
            }
            if budget - d != 0 {
                lemma_decompress_no_closer(next, separation, index + 1, (budget - d) as u32);
                let r = decompress_spec(next, separation, index + 1, (budget - d) as u32)->0;
                assert forall|k: int| 0 <= k < st.gaps.len() implies #[trigger] r.gaps[k]
                    >= min_int(st.gaps[k] as int, separation as int) by {
                    assert(r.gaps[k] >= min_int(moved.0[k] as int, separation as int));
                    assert(moved.0[k] >= min_int(st.gaps[k] as int, separation as int));
                }
            }
        }
    }
}

/// A tick never brings an item closer to the thing ahead of it than the
/// separation, and never squeezes a pair that is already closer any further:
/// every gap ends at least at the smaller of its old value and the
/// separation.
pub proof fn lemma_tick_no_closer(st: BeltState, separation: u32, left: u32)
    requires
        tick_spec(st, separation, left) is Some,
    ensures
        no_closer(st.gaps, tick_spec(st, separation, left)->0.gaps, separation),
    decreases cursor_measure(st.front_uncompressed), left,
{
    if left != 0 {
        let i = st.front_uncompressed->0;
        let amount = move_amount(st.gaps, i as int, left, separation);
        let gaps1 = st.gaps.update(i as int, (st.gaps[i as int] - amount) as u32);
        let cursor1 = cursor_after_move(st.gaps, i as int, amount, separation);
        let st1 = BeltState { gaps: gaps1, front_uncompressed: cursor1, ..st };
        lemma_move_no_closer(st.gaps, Some(i), left, separation);
        let s2 = match st1.next_overcompressed {
            Some(n) => {
                lemma_decompress_keeps_front(st1, separation, n as int, amount);
                lemma_decompress_no_closer(st1, separation, n as int, amount);
                decompress_spec(st1, separation, n as int, amount)->0
            },
            None => st1,
        };
        let s3 = BeltState { front_uncompressed: cursor1, ..s2 };
        lemma_tick_no_closer(s3, separation, (left - amount) as u32);
        let r = tick_spec(s3, separation, (left - amount) as u32)->0;
        assert forall|k: int| 0 <= k < st.gaps.len() implies #[trigger] r.gaps[k] >= min_int(
            st.gaps[k] as int,
            separation as int,
        ) by {
            assert(r.gaps[k] >= min_int(s2.gaps[k] as int, separation as int));
            assert(s2.gaps[k] >= min_int(gaps1[k] as int, separation as int));
            assert(gaps1[k] >= min_int(st.gaps[k] as int, separation as int));
        }
    }
}

// ---------------------------------------------------------------------------
// Laws on what ticking, inserting and appending are for
// ---------------------------------------------------------------------------
/// How much the first `n` gaps grew going from `before` to `after`, counting
/// only gaps that got wider.
pub open spec fn widening(before: Seq<u32>, after: Seq<u32>, n: int) -> int
    decreases n,
{
    if n <= 0 {
        0
    } else {
        widening(before, after, n - 1) + if after[n - 1] > before[n - 1] {
            after[n - 1] - before[n - 1]
        } else {
            0
        }
    }
}

proof fn lemma_widening_triangle(a: Seq<u32>, b: Seq<u32>, c: Seq<u32>, n: int)
    ensures
        widening(a, c, n) <= widening(a, b, n) + widening(b, c, n),
    decreases n,
{
    if n > 0 {
        lemma_widening_triangle(a, b, c, n - 1);
    }
}

proof fn lemma_widening_none(a: Seq<u32>, b: Seq<u32>, n: int)
    requires
        forall|k: int| 0 <= k < n ==> b[k] <= a[k],
    ensures
        widening(a, b, n) == 0,
    decreases n,
{
    if n > 0 {
        lemma_widening_none(a, b, n - 1);
    }
}

proof fn lemma_widening_update(a: Seq<u32>, i: int, v: u32, n: int)
    requires
        0 <= i < a.len(),
        n <= a.len(),
        v >= a[i],
    ensures
        widening(a, a.update(i, v), n) == if i < n {
            v - a[i]
        } else {
            0
        },
    decreases n,
{
    if n > 0 {
        lemma_widening_update(a, i, v, n - 1);
    }
}

proof fn lemma_sum_update(gaps: Seq<u32>, i: int, v: u32, a: int, b: int)
    requires
        0 <= a <= i < b <= gaps.len(),
    ensures
        sum_gaps(gaps.update(i, v), a, b) == sum_gaps(gaps, a, b) - gaps[i] + v,
    decreases b - a,
{
    if b - 1 > i {
        lemma_sum_update(gaps, i, v, a, b - 1);
    } else {
        lemma_sum_agree(gaps.update(i, v), gaps, a, i, 0);
    }
}

/// Spreading out tightly packed items never hands out more than its budget:
/// the gaps that got wider grew by at most `budget` in total.
pub proof fn lemma_decompress_within_budget(st: BeltState, separation: u32, index: int, budget: u32)
    requires
        decompress_spec(st, separation, index, budget) is Some,
    ensures
        widening(
            st.gaps,
            decompress_spec(st, separation, index, budget)->0.gaps,
            st.gaps.len() as int,
        ) <= budget,
    decreases st.gaps.len() - index,
{
    let n = st.gaps.len() as int;
    if index < 0 || index >= st.gaps.len() {
        lemma_widening_none(st.gaps, st.gaps, n);
    } else {
        let g = st.gaps[index];
        if g > separation {
            lemma_decompress_within_budget(
                BeltState { next_overcompressed: nonmax_of(index), ..st },
                separation,
                index + 1,
                budget,
            );
        } else {
            let d = min_int(separation - g, budget as int) as u32;
            let widened = st.gaps.update(index, (g + d) as u32);
            let moved = move_from_spec(widened, nonmax_of(index + 1), d, separation)->0;
            let next = BeltState {
                gaps: moved.0,
                front_uncompressed: st.front_uncompressed,
                next_overcompressed: nonmax_of(index),
                cache: shift_cache(st.cache, index, d),
            };
            lemma_widening_update(st.gaps, index, (g + d) as u32, n);
            lemma_widening_none(widened, moved.0, n);
            lemma_widening_triangle(st.gaps, widened, moved.0, n);
            if budget - d != 0 {
                lemma_decompress_within_budget(next, separation, index + 1, (budget - d) as u32);
                let r = decompress_spec(next, separation, index + 1, (budget - d) as u32)->0;
                lemma_widening_triangle(st.gaps, moved.0, r.gaps, n);
            }
        }
    }
}

/// Over a whole tick, the gaps that got wider grew by at most the belt's
/// speed in total: items are only spread out by distance the belt moved.
pub proof fn lemma_tick_spreads_within_speed(st: BeltState, separation: u32, left: u32)
    requires
        tick_spec(st, separation, left) is Some,
    ensures
        widening(st.gaps, tick_spec(st, separation, left)->0.gaps, st.gaps.len() as int) <= left,
    decreases cursor_measure(st.front_uncompressed), left,
{
    let n = st.gaps.len() as int;
    if left == 0 {
        lemma_widening_none(st.gaps, st.gaps, n);
    } else {
        let i = st.front_uncompressed->0;
        let amount = move_amount(st.gaps, i as int, left, separation);
        let gaps1 = st.gaps.update(i as int, (st.gaps[i as int] - amount) as u32);
        let cursor1 = cursor_after_move(st.gaps, i as int, amount, separation);
        let st1 = BeltState { gaps: gaps1, front_uncompressed: cursor1, ..st };
        lemma_widening_none(st.gaps, gaps1, n);
        let s2 = match st1.next_overcompressed {
            Some(nx) => {
                lemma_decompress_keeps_front(st1, separation, nx as int, amount);
                lemma_decompress_within_budget(st1, separation, nx as int, amount);
                decompress_spec(st1, separation, nx as int, amount)->0
            },
            None => {
                lemma_widening_none(gaps1, gaps1, n);
                st1
            },
        };
        let s3 = BeltState { front_uncompressed: cursor1, ..s2 };
        lemma_tick_spreads_within_speed(s3, separation, (left - amount) as u32);
        let r = tick_spec(s3, separation, (left - amount) as u32)->0;
        lemma_widening_triangle(st.gaps, gaps1, s2.gaps, n);
        lemma_widening_triangle(st.gaps, s2.gaps, r.gaps, n);
    }
}

/// A tick spends the whole speed: on a belt with nothing packed too
/// tightly (no over-compressed cursor), a tick that finishes moves the back
/// of the belt forward by exactly `left`, and nothing becomes over-compressed.
pub proof fn lemma_tick_spends_speed(st: BeltState, separation: u32, left: u32)
    requires
        tick_spec(st, separation, left) is Some,
        st.next_overcompressed is None,
    ensures
        ({
            let r = tick_spec(st, separation, left)->0;
            &&& r.next_overcompressed is None
            &&& r.gaps.len() == st.gaps.len()
            &&& prefix_sum(r.gaps, r.gaps.len() as int) == prefix_sum(
                st.gaps,
                st.gaps.len() as int,
            ) - left
        }),
    decreases cursor_measure(st.front_uncompressed), left,
{
    if left != 0 {
        let i = st.front_uncompressed->0;
        let amount = move_amount(st.gaps, i as int, left, separation);
        let gaps1 = st.gaps.update(i as int, (st.gaps[i as int] - amount) as u32);
        let cursor1 = cursor_after_move(st.gaps, i as int, amount, separation);
        let s3 = BeltState { gaps: gaps1, front_uncompressed: cursor1, ..st };
        lemma_sum_update(st.gaps, i as int, (st.gaps[i as int] - amount) as u32, 0, st.gaps.len() as int);
        lemma_tick_spends_speed(s3, separation, (left - amount) as u32);
    }
}

/// Inserting into an empty belt at position `p` leaves one item, `p` from
/// the front of the belt: its gap is measured from the front.
pub proof fn lemma_insert_into_empty(st: BeltState, position: u32)
    requires
        st.gaps.len() == 0,
        st.cache is None,
    ensures
        can_insert_at_position(st, position),
        insertion_slot(st.gaps, position).0 == 0,
        insert_ahead_state(
            st,
            insertion_slot(st.gaps, position).0,
            insertion_gap(st.gaps, position) as u32,
        ).gaps == seq![position],
        prefix_sum(seq![position], 1) == position,
{
    assert(insert_ahead_gaps(st.gaps, 0, position) =~= seq![position]);
    assert(prefix_sum(seq![position], 1) == position) by {
        lemma_sum_single(seq![position], 0);
    }
}

/// Appending wakes the belt exactly when the new item has slack: afterwards
/// the belt is asleep (no front cursor) if and only if it was asleep before
/// and the new item sits no farther back than the separation, whatever the
/// over-compressed cursor holds.
pub proof fn lemma_append_wakes(st: BeltState, distance: u32, separation: u32)
    requires
        st.gaps.len() + 1 < usize::MAX,
    ensures
        append_state(st, distance, separation).front_uncompressed is None <==> (
        st.front_uncompressed is None && distance <= separation),
        append_state(st, distance, separation).gaps == st.gaps.push(distance),
{
}

/// The slack of the first `n` items: how much farther back than the
/// separation each sits, summed; this is how far a tick could still move them.
pub open spec fn slack(gaps: Seq<u32>, separation: u32, n: int) -> int
    decreases n,
{
    if n <= 0 {
        0
    } else {
        slack(gaps, separation, n - 1) + if gaps[n - 1] > separation {
            gaps[n - 1] - separation
        } else {
            0
        }
    }
}

proof fn lemma_slack_update(gaps: Seq<u32>, separation: u32, i: int, v: u32, n: int)
    requires
        0 <= i < gaps.len(),
        n <= gaps.len(),
    ensures
        slack(gaps.update(i, v), separation, n) == slack(gaps, separation, n) - if i < n {
            (if gaps[i] > separation {
                gaps[i] - separation
            } else {
                0
            }) - (if v > separation {
                v - separation
            } else {
                0
            })
        } else {
            0
        },
    decreases n,
{
    if n > 0 {
        lemma_slack_update(gaps, separation, i, v, n - 1);
    }
}

proof fn lemma_move_spends_slack(gaps: Seq<u32>, cursor: Option<nat>, left: u32, separation: u32)
    requires
        move_from_spec(gaps, cursor, left, separation) is Some,
    ensures
        ({
            let m = move_from_spec(gaps, cursor, left, separation)->0;
            slack(m.0, separation, gaps.len() as int) + m.3 == slack(
                gaps,
                separation,
                gaps.len() as int,
            )
        }),
{
    if let Some(i) = cursor {
        let amount = move_amount(gaps, i as int, left, separation);
        lemma_slack_update(
            gaps,
            separation,
            i as int,
            (gaps[i as int] - amount) as u32,
            gaps.len() as int,
        );
    }
}

/// Spreading out tightly packed items never adds slack.
pub proof fn lemma_decompress_adds_no_slack(st: BeltState, separation: u32, index: int, budget: u32)
    requires
        decompress_spec(st, separation, index, budget) is Some,
    ensures
        slack(decompress_spec(st, separation, index, budget)->0.gaps, separation, st.gaps.len() as int)
            <= slack(st.gaps, separation, st.gaps.len() as int),
        decompress_spec(st, separation, index, budget)->0.gaps.len() == st.gaps.len(),
    decreases st.gaps.len() - index,
{
    let n = st.gaps.len() as int;
    lemma_decompress_keeps_front(st, separation, index, budget);
    if index < 0 || index >= st.gaps.len() {
    } else {
        let g = st.gaps[index];
        if g > separation {
            lemma_decompress_adds_no_slack(
                BeltState { next_overcompressed: nonmax_of(index), ..st },
                separation,
                index + 1,
                budget,
            );
        } else {
            let d = min_int(separation - g, budget as int) as u32;
            let widened = st.gaps.update(index, (g + d) as u32);
            let moved = move_from_spec(widened, nonmax_of(index + 1), d, separation)->0;
            let next = BeltState {
                gaps: moved.0,
                front_uncompressed: st.front_uncompressed,
                next_overcompressed: nonmax_of(index),
                cache: shift_cache(st.cache, index, d),
            };
            lemma_slack_update(st.gaps, separation, index, (g + d) as u32, n);
            lemma_move_spends_slack(widened, nonmax_of(index + 1), d, separation);
            if budget - d != 0 {
                lemma_decompress_adds_no_slack(next, separation, index + 1, (budget - d) as u32);
            }
        }
    }
}

/// A tick spends the whole speed on slack: the belt's total slack drops by
/// at least the speed (exactly the speed, plus whatever spreading out
/// tightly packed items let the items behind close up).
pub proof fn lemma_tick_spends_slack(st: BeltState, separation: u32, left: u32)
    requires
        tick_spec(st, separation, left) is Some,
    ensures
        slack(tick_spec(st, separation, left)->0.gaps, separation, st.gaps.len() as int) + left
            <= slack(st.gaps, separation, st.gaps.len() as int),
        st.next_overcompressed is None ==> slack(
            tick_spec(st, separation, left)->0.gaps,
            separation,
            st.gaps.len() as int,
        ) + left == slack(st.gaps, separation, st.gaps.len() as int),
    decreases cursor_measure(st.front_uncompressed), left,
{
    let n = st.gaps.len() as int;
    if left != 0 {
        let i = st.front_uncompressed->0;
        let amount = move_amount(st.gaps, i as int, left, separation);
        let gaps1 = st.gaps.update(i as int, (st.gaps[i as int] - amount) as u32);
        let cursor1 = cursor_after_move(st.gaps, i as int, amount, separation);
        let st1 = BeltState { gaps: gaps1, front_uncompressed: cursor1, ..st };
        lemma_move_spends_slack(st.gaps, Some(i), left, separation);
        let s2 = match st1.next_overcompressed {
            Some(nx) => {
                lemma_decompress_adds_no_slack(st1, separation, nx as int, amount);
                decompress_spec(st1, separation, nx as int, amount)->0
            },
            None => st1,
        };
        let s3 = BeltState { front_uncompressed: cursor1, ..s2 };
        lemma_tick_spends_slack(s3, separation, (left - amount) as u32);
    }
}

} // verus!
