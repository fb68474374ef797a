use lib::belt::{BeltLine, BeltLineLocationRange, BeltLineProperties};

fn positions<T: Copy>(belt: &BeltLine<T>) -> Vec<(u32, T)> {
    belt.iter_positions().into_iter().map(|(p, x)| (p, *x)).collect()
}

fn sample_belt() -> BeltLine<char> {
    let mut belt = BeltLine::new(BeltLineProperties::default());
    belt.append_item(3, 'a');
    belt.append_item(5, 'b');
    belt.append_item(7, 'c');
    belt
}

#[test]
fn properties_round_trip() {
    let p = BeltLineProperties::new(7, 9);
    assert_eq!(p.speed(), 7);
    assert_eq!(p.item_separation(), 9);
    let d = BeltLineProperties::default();
    assert_eq!(d.speed(), 1);
    assert_eq!(d.item_separation(), 4);
}

#[test]
fn location_range_new() {
    let _r = BeltLineLocationRange::new(3..8);
}

#[test]
fn new_belt_is_empty_and_asleep() {
    let belt: BeltLine<u8> = BeltLine::new(BeltLineProperties::default());
    assert!(belt.can_sleep());
    assert!(belt.get(0).is_none());
    assert_eq!(belt.iter_positions().len(), 0);
    assert_eq!(belt.ascii_art_display(), "");
}

#[test]
fn append_then_get() {
    let belt = sample_belt();
    assert_eq!(belt.get(0), Some(&'a'));
    assert_eq!(belt.get(1), Some(&'b'));
    assert_eq!(belt.get(2), Some(&'c'));
    assert_eq!(belt.get(3), None);
}

#[test]
fn append_wide_gap_marks_uncompressed() {
    let mut belt = BeltLine::new(BeltLineProperties::default());
    belt.append_item(4, 'a');
    assert!(belt.can_sleep());
    belt.append_item(3, 'b');
    assert!(belt.can_sleep());
    belt.append_item(5, 'c');
    assert!(!belt.can_sleep());
}

#[test]
fn get_mut_changes_only_that_item() {
    let mut belt = sample_belt();
    if let Some(x) = belt.get_mut(1) {
        *x = 'z';
    }
    assert_eq!(belt.get(1), Some(&'z'));
    assert!(belt.get_mut(3).is_none());
    assert_eq!(positions(&belt), vec![(3, 'a'), (8, 'z'), (15, 'c')]);
}

#[test]
fn positions_are_running_sums_of_gaps() {
    let belt = sample_belt();
    let ps = positions(&belt);
    assert_eq!(ps, vec![(3, 'a'), (8, 'b'), (15, 'c')]);
    assert!(ps.windows(2).all(|w| w[0].0 <= w[1].0));
}

#[test]
fn take_keeps_other_positions() {
    let mut belt = sample_belt();
    assert_eq!(belt.take_at_index(1), Some('b'));
    assert_eq!(positions(&belt), vec![(3, 'a'), (15, 'c')]);
    assert_eq!(belt.take_at_index(5), None);
    assert_eq!(belt.take_at_index(1), Some('c'));
    assert_eq!(positions(&belt), vec![(3, 'a')]);
}

#[test]
fn insert_at_position_goes_to_the_front_slot() {
    for position in [0u32, 2, 3, 20] {
        let mut belt = sample_belt();
        belt.insert_at_position(position, 'x');
        assert_eq!(belt.get(0), Some(&'x'));
        assert_eq!(belt.get(1), Some(&'a'));
        assert_eq!(belt.get(3), Some(&'c'));
        // The new item has no gap and the old ones keep their positions.
        assert_eq!(positions(&belt), vec![(0, 'x'), (3, 'a'), (8, 'b'), (15, 'c')]);
    }
}

#[test]
fn insert_then_take_restores() {
    let mut belt = sample_belt();
    belt.insert_at_position(2, 'x');
    assert_eq!(belt.take_at_index(0), Some('x'));
    assert_eq!(positions(&belt), vec![(3, 'a'), (8, 'b'), (15, 'c')]);
}

#[test]
fn ascii_art_of_sample() {
    let belt = sample_belt();
    let art = belt.ascii_art_display();
    assert_eq!(art, "   [==] [==]   [==]");
    // The picture ends with the last item's marker.
    assert_eq!(art.len(), 15 + 4);
    let mut out = String::from("old text");
    belt.ascii_art_display_to(&mut out);
    assert_eq!(out, "   [==] [==]   [==]");
}

#[test]
fn ascii_art_overlap_cuts_back() {
    let mut belt = BeltLine::new(BeltLineProperties::new(1, 5));
    belt.append_item(2, 1u8);
    belt.append_item(1, 2u8);
    // positions 2 and 3: the second marker overwrites the first from 3 on.
    assert_eq!(belt.ascii_art_display(), "  [[===]");
}

#[test]
fn tick_moves_front_uncompressed_item() {
    let mut belt = BeltLine::new(BeltLineProperties::new(3, 4));
    belt.append_item(2, 'a');
    belt.append_item(10, 'b');
    belt.append_item(10, 'c');
    belt.append_item(1, 'd');
    belt.append_item(6, 'e');
    belt.tick();
    // gaps now 2, 10, 7, 1, 6
    assert_eq!(
        positions(&belt),
        vec![(2, 'a'), (12, 'b'), (19, 'c'), (20, 'd'), (26, 'e')]
    );
    assert!(!belt.can_sleep());
}

#[test]
fn tick_keeps_cursor_until_slack_is_used() {
    let mut belt = BeltLine::new(BeltLineProperties::default());
    belt.append_item(10, 'a');
    belt.append_item(10, 'b');
    let mut ticks = 0;
    while !belt.can_sleep() {
        belt.tick();
        ticks += 1;
    }
    // Item 1 closes from 10 to the separation 4, one step per tick.
    assert_eq!(ticks, 6);
    assert_eq!(positions(&belt), vec![(10, 'a'), (14, 'b')]);
}

#[test]
fn tick_spreads_tight_items() {
    let mut belt = BeltLine::new(BeltLineProperties::new(2, 4));
    for (gap, item) in [(9, 'a'), (9, 'b'), (2, 'c'), (2, 'd'), (3, 'e'), (9, 'f')] {
        belt.append_item(gap, item);
    }
    belt.tick();
    // gaps now 9, 7, 2, 4, 3, 9
    assert_eq!(
        positions(&belt),
        vec![(9, 'a'), (16, 'b'), (18, 'c'), (22, 'd'), (25, 'e'), (34, 'f')]
    );
    belt.tick();
    // gaps now 9, 5, 2, 4, 4, 8
    assert_eq!(
        positions(&belt),
        vec![(9, 'a'), (14, 'b'), (16, 'c'), (20, 'd'), (24, 'e'), (32, 'f')]
    );
    assert!(!belt.can_sleep());
}

#[test]
fn slices_can_be_taken() {
    let mut belt = sample_belt();
    let _a = belt.slice_location(2, 9);
    let _b = belt.slice_location(9, 2);
    let _c = belt.slice_index(0, 2);
    let _d = belt.slice_index(7, 100);
    let _g = belt.slice_index(1, 100);
    let _e = belt.slice_location_mut(2, 9);
    let _f = belt.slice_index_mut(1, 1);
    let _h = belt.slice_index_mut(0, 3);
}

#[test]
fn spaced_items_settle_after_n_minus_one_ticks() {
    for n in 2..8u32 {
        let mut belt = BeltLine::new(BeltLineProperties::new(1, 3));
        for i in 0..n {
            belt.append_item(4, i);
        }
        let mut ticks = 0;
        while !belt.can_sleep() {
            belt.tick();
            ticks += 1;
        }
        assert_eq!(ticks, n - 1);
    }
}
