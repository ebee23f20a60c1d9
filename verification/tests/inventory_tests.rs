use my_magic_adventure::block::Block;
use my_magic_adventure::crafting::{apply_craft, can_craft, recipes, RECIPE_COUNT};
use my_magic_adventure::inventory::{
    add_to_all, checked_total_count, collect_block, compute_right_click, put_back_held, compute_slot_swap, take_from_all, total_count,
    BlockInventory, Hotbar, MAX_STACK,
};

#[test]
fn picking_up_fills_an_empty_hotbar_slot_first() {
    let mut inv = BlockInventory::new();
    let mut hb = Hotbar::new();
    add_to_all(&mut inv, &mut hb, Block::Dirt, 5);
    assert_eq!(hb.slots[0], Some((Block::Dirt, 5)));
    assert!(inv.backpack.iter().all(|s| s.is_none()));
    assert_eq!(total_count(&inv, &hb, Block::Dirt), 5);
}

#[test]
fn stacks_top_up_before_new_slots() {
    let mut inv = BlockInventory::new();
    let mut hb = Hotbar::new();
    hb.slots[2] = Some((Block::Stone, 60));
    inv.backpack[4] = Some((Block::Stone, 62));
    add_to_all(&mut inv, &mut hb, Block::Stone, 10);
    assert_eq!(hb.slots[2], Some((Block::Stone, 64)));
    assert_eq!(inv.backpack[4], Some((Block::Stone, 64)));
    // the block is already on the hotbar: the rest goes to the backpack
    assert_eq!(inv.backpack[0], Some((Block::Stone, 4)));
    assert_eq!(hb.slots[0], None);
    assert_eq!(total_count(&inv, &hb, Block::Stone), 132);
}

#[test]
fn overflow_spills_into_remaining_hotbar_slots() {
    let mut inv = BlockInventory::new();
    let mut hb = Hotbar::new();
    for i in 0..18 {
        inv.backpack[i] = Some((Block::Sand, MAX_STACK));
    }
    hb.slots[0] = Some((Block::Dirt, 1));
    add_to_all(&mut inv, &mut hb, Block::Snow, 200);
    assert_eq!(hb.slots[1], Some((Block::Snow, 64)));
    assert_eq!(hb.slots[2], Some((Block::Snow, 64)));
    assert_eq!(hb.slots[3], Some((Block::Snow, 64)));
    assert_eq!(hb.slots[4], Some((Block::Snow, 8)));
    assert_eq!(hb.slots[5], None);
}

#[test]
fn full_inventory_drops_the_rest() {
    let mut inv = BlockInventory::new();
    let mut hb = Hotbar::new();
    for i in 0..18 {
        inv.backpack[i] = Some((Block::Sand, MAX_STACK));
    }
    for i in 0..9 {
        hb.slots[i] = Some((Block::Dirt, MAX_STACK));
    }
    add_to_all(&mut inv, &mut hb, Block::Ice, 3);
    assert_eq!(total_count(&inv, &hb, Block::Ice), 0);
}

#[test]
fn taking_starts_from_the_back_of_the_backpack() {
    let mut inv = BlockInventory::new();
    let mut hb = Hotbar::new();
    inv.backpack[0] = Some((Block::Wood, 3));
    inv.backpack[5] = Some((Block::Wood, 2));
    hb.slots[1] = Some((Block::Wood, 4));
    assert!(take_from_all(&mut inv, &mut hb, Block::Wood, 4));
    assert_eq!(inv.backpack[5], None);
    assert_eq!(inv.backpack[0], Some((Block::Wood, 1)));
    assert_eq!(hb.slots[1], Some((Block::Wood, 4)));
    assert!(take_from_all(&mut inv, &mut hb, Block::Wood, 3));
    assert_eq!(inv.backpack[0], None);
    assert_eq!(hb.slots[1], Some((Block::Wood, 2)));
}

#[test]
fn taking_too_much_changes_nothing() {
    let mut inv = BlockInventory::new();
    let mut hb = Hotbar::new();
    inv.backpack[0] = Some((Block::Wood, 3));
    assert!(!take_from_all(&mut inv, &mut hb, Block::Wood, 4));
    assert_eq!(inv.backpack[0], Some((Block::Wood, 3)));
    assert_eq!(inv.count(Block::Wood), 3);
}

#[test]
fn collecting_air_does_nothing() {
    let mut inv = BlockInventory::new();
    let mut hb = Hotbar::new();
    collect_block(&mut inv, &mut hb, Block::Air);
    assert!(hb.slots.iter().all(|s| s.is_none()));
    collect_block(&mut inv, &mut hb, Block::Leaves);
    assert_eq!(hb.slots[0], Some((Block::Leaves, 1)));
}

#[test]
fn left_click_swaps_or_merges() {
    assert_eq!(compute_slot_swap(None, Some((Block::Dirt, 3))), (Some((Block::Dirt, 3)), None));
    assert_eq!(compute_slot_swap(Some((Block::Dirt, 3)), None), (None, Some((Block::Dirt, 3))));
    assert_eq!(
        compute_slot_swap(Some((Block::Dirt, 10)), Some((Block::Dirt, 60))),
        (Some((Block::Dirt, 6)), Some((Block::Dirt, 64)))
    );
    assert_eq!(
        compute_slot_swap(Some((Block::Dirt, 4)), Some((Block::Dirt, 60))),
        (None, Some((Block::Dirt, 64)))
    );
    assert_eq!(
        compute_slot_swap(Some((Block::Dirt, 4)), Some((Block::Sand, 6))),
        (Some((Block::Sand, 6)), Some((Block::Dirt, 4)))
    );
    assert_eq!(compute_slot_swap(None, None), (None, None));
}

#[test]
fn right_click_splits_and_drops_one() {
    assert_eq!(
        compute_right_click(None, Some((Block::Stone, 5))),
        (Some((Block::Stone, 3)), Some((Block::Stone, 2)))
    );
    assert_eq!(compute_right_click(None, Some((Block::Stone, 1))), (Some((Block::Stone, 1)), None));
    assert_eq!(
        compute_right_click(Some((Block::Stone, 5)), None),
        (Some((Block::Stone, 4)), Some((Block::Stone, 1)))
    );
    assert_eq!(compute_right_click(Some((Block::Stone, 1)), None), (None, Some((Block::Stone, 1))));
    assert_eq!(
        compute_right_click(Some((Block::Stone, 2)), Some((Block::Stone, 63))),
        (Some((Block::Stone, 1)), Some((Block::Stone, 64)))
    );
    assert_eq!(
        compute_right_click(Some((Block::Stone, 2)), Some((Block::Stone, 64))),
        (Some((Block::Stone, 2)), Some((Block::Stone, 64)))
    );
    assert_eq!(
        compute_right_click(Some((Block::Stone, 2)), Some((Block::Ice, 7))),
        (Some((Block::Ice, 7)), Some((Block::Stone, 2)))
    );
    assert_eq!(compute_right_click(None, None), (None, None));
}

#[test]
fn hotbar_selection_and_spending() {
    let mut hb = Hotbar::new();
    hb.select(8);
    hb.scroll_down();
    assert_eq!(hb.selected, 8);
    hb.select(0);
    hb.scroll_up();
    assert_eq!(hb.selected, 0);
    hb.scroll_down();
    assert_eq!(hb.selected, 1);
    hb.slots[1] = Some((Block::Planks, 2));
    assert_eq!(hb.selected_block(), Some(Block::Planks));
    hb.spend_selected();
    assert_eq!(hb.slots[1], Some((Block::Planks, 1)));
    hb.spend_selected();
    assert_eq!(hb.slots[1], None);
    assert_eq!(hb.selected_block(), None);
}

#[test]
fn recipe_book() {
    let rs = recipes();
    assert_eq!(rs.len(), RECIPE_COUNT);
    let names: Vec<&str> = rs.iter().map(|r| r.name).collect();
    assert_eq!(
        names,
        vec!["Planches", "Bois comprime", "Bloc de glace", "Sable vitrifie", "Herbe", "Pierre taillee"]
    );
    assert_eq!(rs[3].inputs, vec![(Block::Sand, 2), (Block::Stone, 1)]);
    assert_eq!(rs[3].output, (Block::Ice, 2));
}

#[test]
fn crafting_spends_inputs_and_stores_output() {
    let mut inv = BlockInventory::new();
    let mut hb = Hotbar::new();
    hb.slots[0] = Some((Block::Wood, 2));
    let rs = recipes();
    assert!(can_craft(&inv, &hb, &rs[0]));
    assert!(!can_craft(&inv, &hb, &rs[1]));
    apply_craft(&mut inv, &mut hb, 0);
    assert_eq!(hb.slots[0], Some((Block::Wood, 1)));
    assert_eq!(hb.slots[1], Some((Block::Planks, 4)));
    // not enough planks for nothing: index out of the book is ignored
    apply_craft(&mut inv, &mut hb, 17);
    assert_eq!(total_count(&inv, &hb, Block::Planks), 4);
    apply_craft(&mut inv, &mut hb, 1);
    assert_eq!(total_count(&inv, &hb, Block::Planks), 0);
    assert_eq!(total_count(&inv, &hb, Block::Wood), 2);
}

#[test]
fn crafting_without_inputs_changes_nothing() {
    let mut inv = BlockInventory::new();
    let mut hb = Hotbar::new();
    inv.backpack[0] = Some((Block::Sand, 2));
    apply_craft(&mut inv, &mut hb, 3);
    assert_eq!(inv.backpack[0], Some((Block::Sand, 2)));
    assert_eq!(total_count(&inv, &hb, Block::Ice), 0);
    inv.backpack[1] = Some((Block::Stone, 1));
    apply_craft(&mut inv, &mut hb, 3);
    assert_eq!(total_count(&inv, &hb, Block::Sand), 0);
    assert_eq!(total_count(&inv, &hb, Block::Stone), 0);
    assert_eq!(hb.slots[0], Some((Block::Ice, 2)));
}

#[test]
fn checked_count_reports_overflow() {
    let mut inv = BlockInventory::new();
    let mut hb = Hotbar::new();
    assert_eq!(checked_total_count(&inv, &hb, Block::Dirt), Some(0));
    hb.slots[0] = Some((Block::Dirt, 7));
    inv.backpack[3] = Some((Block::Dirt, 5));
    inv.backpack[4] = Some((Block::Sand, 9));
    assert_eq!(checked_total_count(&inv, &hb, Block::Dirt), Some(12));
    assert_eq!(checked_total_count(&inv, &hb, Block::Sand), Some(9));
    inv.backpack[5] = Some((Block::Dirt, u32::MAX - 12));
    assert_eq!(checked_total_count(&inv, &hb, Block::Dirt), Some(u32::MAX));
    hb.slots[8] = Some((Block::Dirt, 1));
    assert_eq!(checked_total_count(&inv, &hb, Block::Dirt), None);
    inv.backpack[6] = Some((Block::Stone, u32::MAX));
    inv.backpack[7] = Some((Block::Stone, 1));
    assert_eq!(checked_total_count(&inv, &hb, Block::Stone), None);
}

#[test]
fn held_stack_goes_back_to_the_backpack() {
    let mut inv = BlockInventory::new();
    let mut hb = Hotbar::new();
    hb.slots[0] = Some((Block::Dirt, 10));
    put_back_held(&mut inv, &mut hb, Block::Dirt, 5);
    assert_eq!(hb.slots[0], Some((Block::Dirt, 10)));
    assert_eq!(inv.backpack[0], Some((Block::Dirt, 5)));
    // a partial backpack stack is topped up before an empty slot is used
    inv.backpack[2] = Some((Block::Sand, 60));
    put_back_held(&mut inv, &mut hb, Block::Sand, 10);
    assert_eq!(inv.backpack[2], Some((Block::Sand, 64)));
    assert_eq!(inv.backpack[1], Some((Block::Sand, 6)));
    assert!(hb.slots[1..].iter().all(|s| s.is_none()));
    // with the backpack full, what is left goes where picked-up blocks go
    for s in inv.backpack.iter_mut() {
        *s = Some((Block::Stone, MAX_STACK));
    }
    put_back_held(&mut inv, &mut hb, Block::Wood, 3);
    assert_eq!(hb.slots[1], Some((Block::Wood, 3)));
}
