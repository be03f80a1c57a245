use game_stat::{
    borrow_cell, held_elsewhere, new_handle, new_interior_cell, ModifierStore, StatModifier,
};

#[test]
fn default_orders_follow_the_variant() {
    assert_eq!(StatModifier::Flat(3i64).default_order(), 0);
    assert_eq!(StatModifier::PercentAdd(3i64).default_order(), 1);
    assert_eq!(StatModifier::PercentMultiply(3i64).default_order(), 2);
}

#[test]
fn default_orders_apply_by_kind_whatever_the_insertion_order() {
    let mut stat: ModifierStore<i64, 3> = ModifierStore::new();
    let _a = stat.add_modifier(StatModifier::PercentMultiply(5));
    let _b = stat.add_modifier(StatModifier::PercentAdd(6));
    let _c = stat.add_modifier(StatModifier::Flat(7));
    assert_eq!(
        stat.ordered_modifiers(),
        vec![
            (StatModifier::Flat(7), 0),
            (StatModifier::PercentAdd(6), 1),
            (StatModifier::PercentMultiply(5), 2),
        ]
    );
}

#[test]
fn explicit_orders_apply_ascending_and_ties_keep_slot_order() {
    let mut stat: ModifierStore<i64, 4> = ModifierStore::new();
    let _a = stat.add_modifier_with_order(StatModifier::Flat(1), 5);
    let _b = stat.add_modifier_with_order(StatModifier::PercentMultiply(2), -3);
    let _c = stat.add_modifier_with_order(StatModifier::Flat(3), 5);
    let _d = stat.add_modifier_with_order(StatModifier::PercentAdd(4), 0);
    assert_eq!(
        stat.ordered_modifiers(),
        vec![
            (StatModifier::PercentMultiply(2), -3),
            (StatModifier::PercentAdd(4), 0),
            (StatModifier::Flat(1), 5),
            (StatModifier::Flat(3), 5),
        ]
    );
}

#[test]
fn dropped_handles_are_retired_only_by_maintenance() {
    let mut stat: ModifierStore<i64, 2> = ModifierStore::new();
    let kept = stat.add_modifier(StatModifier::Flat(1));
    let dropped = stat.add_modifier(StatModifier::Flat(2));
    assert!(kept.is_ok());
    drop(dropped);
    assert_eq!(stat.ordered_live_modifiers(), vec![(StatModifier::Flat(1), 0)]);
    assert_eq!(stat.ordered_modifiers().len(), 2);
    assert!(stat.update_modifiers());
    assert_eq!(stat.ordered_modifiers(), vec![(StatModifier::Flat(1), 0)]);
    assert!(!stat.update_modifiers());
}

#[test]
fn a_cloned_handle_keeps_the_modifier_until_the_last_clone_goes() {
    let mut stat: ModifierStore<i64, 1> = ModifierStore::new();
    let handle = stat.add_modifier(StatModifier::Flat(4)).unwrap();
    let clone = handle.clone();
    drop(handle);
    assert!(!stat.update_modifiers());
    assert_eq!(stat.ordered_modifiers().len(), 1);
    drop(clone);
    assert!(stat.update_modifiers());
    assert!(stat.ordered_modifiers().is_empty());
}

#[test]
fn a_retired_slot_makes_room_in_a_bounded_store() {
    let mut stat: ModifierStore<i64, 1> = ModifierStore::new();
    let first = stat.add_modifier(StatModifier::Flat(1));
    assert!(stat.add_modifier(StatModifier::Flat(2)).is_err());
    drop(first);
    let second = stat.add_modifier(StatModifier::Flat(3));
    assert!(second.is_ok());
    assert_eq!(stat.ordered_modifiers(), vec![(StatModifier::Flat(3), 0)]);
}

#[test]
fn highest_order_is_zero_when_empty_and_the_maximum_otherwise() {
    let mut stat: ModifierStore<i64, 3> = ModifierStore::new();
    assert_eq!(stat.highest_order(), 0);
    let _a = stat.add_modifier_with_order(StatModifier::Flat(1), -3);
    let b = stat.add_modifier_with_order(StatModifier::Flat(1), -1);
    assert_eq!(stat.highest_order(), -1);
    drop(b);
    assert_eq!(stat.highest_order(), -3);
}

#[test]
fn retain_live_keeps_the_flagged_slots_in_place() {
    let mut stat: ModifierStore<i64, 3> = ModifierStore::new();
    let _a = stat.add_modifier_with_order(StatModifier::Flat(1), 2);
    let _b = stat.add_modifier_with_order(StatModifier::Flat(2), 1);
    let _c = stat.add_modifier_with_order(StatModifier::Flat(3), 0);
    assert_eq!(
        stat.ordered_modifiers_with(&vec![true, false, true]),
        vec![(StatModifier::Flat(3), 0), (StatModifier::Flat(1), 2)]
    );
    assert!(stat.retain_live(&vec![true, false, true]));
    assert_eq!(
        stat.ordered_modifiers(),
        vec![(StatModifier::Flat(3), 0), (StatModifier::Flat(1), 2)]
    );
    assert!(!stat.retain_live(&vec![true, true]));
}

#[test]
fn integrated_modifiers_come_after_own_and_leave_other_alone() {
    let mut stat: ModifierStore<i64, 4> = ModifierStore::new();
    let _a = stat.add_modifier_with_order(StatModifier::Flat(1), 3);
    let mut other: ModifierStore<i64, 4> = ModifierStore::new();
    let _b = other.add_modifier_with_order(StatModifier::PercentAdd(2), 1);
    let _c = other.add_modifier_with_order(StatModifier::Flat(5), 0);
    let before = other.ordered_modifiers();
    let held = stat.integrate_modifiers(&other);
    assert_eq!(held.len(), 2);
    assert_eq!(
        stat.ordered_modifiers(),
        vec![
            (StatModifier::Flat(1), 3),
            (StatModifier::Flat(5), 4),
            (StatModifier::PercentAdd(2), 5),
        ]
    );
    assert_eq!(other.ordered_modifiers(), before);
    drop(held);
    assert!(stat.update_modifiers());
    assert_eq!(stat.ordered_modifiers(), vec![(StatModifier::Flat(1), 3)]);
}

#[test]
fn integration_into_a_bounded_store_takes_what_fits() {
    let mut stat: ModifierStore<i64, 2> = ModifierStore::new();
    let _a = stat.add_modifier(StatModifier::Flat(1));
    let mut other: ModifierStore<i64, 2> = ModifierStore::new_growable();
    let _b = other.add_modifier_with_order(StatModifier::Flat(2), 0);
    let _c = other.add_modifier_with_order(StatModifier::Flat(3), 1);
    let _d = other.add_modifier_with_order(StatModifier::Flat(4), 2);
    let held = stat.integrate_modifiers(&other);
    assert_eq!(held.len(), 1);
    assert_eq!(
        stat.ordered_modifiers(),
        vec![(StatModifier::Flat(1), 0), (StatModifier::Flat(2), 1)]
    );
}

#[test]
fn integration_retires_what_an_earlier_integration_left() {
    let mut stat: ModifierStore<i64, 2> = ModifierStore::new();
    let mut other: ModifierStore<i64, 2> = ModifierStore::new();
    let _b = other.add_modifier(StatModifier::Flat(2));
    let _c = other.add_modifier(StatModifier::Flat(3));
    drop(stat.integrate_modifiers(&other));
    let held = stat.integrate_modifiers(&other);
    assert_eq!(held.len(), 2);
    assert_eq!(stat.ordered_modifiers().len(), 2);
}

#[test]
fn a_handle_is_held_elsewhere_only_while_cloned() {
    let handle = new_handle();
    assert!(!held_elsewhere(&handle));
    let clone = handle.clone();
    assert!(held_elsewhere(&handle));
    drop(clone);
    assert!(!held_elsewhere(&handle));
}

#[test]
fn a_cell_hands_out_its_contents_for_update() {
    let mut cell = new_interior_cell(vec![1u8, 2]);
    borrow_cell(&mut cell).push(3);
    assert_eq!(cell.get(), &vec![1u8, 2, 3]);
}

#[test]
fn integration_with_given_liveness_uses_exactly_the_flagged_slots() {
    let mut stat: ModifierStore<i64, 3> = ModifierStore::new();
    let _a = stat.add_modifier_with_order(StatModifier::Flat(1), 7);
    let _b = stat.add_modifier_with_order(StatModifier::Flat(2), 2);
    let mut other: ModifierStore<i64, 3> = ModifierStore::new();
    let _c = other.add_modifier_with_order(StatModifier::Flat(3), 1);
    let _d = other.add_modifier_with_order(StatModifier::Flat(4), 0);
    let held = stat.integrate_modifiers_with(&vec![false, true], &other, &vec![true, false]);
    assert_eq!(held.len(), 1);
    assert_eq!(
        stat.ordered_modifiers(),
        vec![(StatModifier::Flat(2), 2), (StatModifier::Flat(3), 4)]
    );
}
