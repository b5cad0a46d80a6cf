use falling_sand::slots::{
    MappedSlots, MappedSlotsOutOfBoundsError, MappedSlotsPopAtError, MappedSlotsPushError, SlotItem,
    SlotIndex, Slots,
};
use falling_sand::vector::UVec2;

fn pos(x: u16, y: u16) -> UVec2<u16> {
    UVec2 { x, y }
}

#[test]
fn slot_index_values() {
    assert_eq!(<u8 as SlotIndex>::max_value(), 255u8);
    assert_eq!(<u16 as SlotIndex>::max_value(), u16::MAX);
    assert!(u16::MAX.is_max());
    assert!(!5u16.is_max());
    assert_eq!(<u16 as SlotIndex>::from_usize(42), 42u16);
    assert_eq!(300u16.to_usize(), 300usize);
}

#[test]
fn push_fills_slots_from_the_end_of_the_free_list() {
    let mut slots: Slots<char, u8, 3> = Slots::new();
    assert_eq!(slots.push('a'), Ok(2u8));
    assert_eq!(slots.push('b'), Ok(1u8));
    assert_eq!(slots.push('c'), Ok(0u8));
    assert_eq!(slots.push('d'), Err(()));
    assert_eq!(slots.get(1), Some(&'b'));
}

#[test]
fn pop_frees_a_slot_that_push_fills_next() {
    let mut slots: Slots<u32, u16, 4> = Slots::new();
    let a = slots.push(10).unwrap();
    let b = slots.push(20).unwrap();
    assert_eq!((a, b), (3, 2));
    assert_eq!(slots.pop(a), Some(10));
    assert_eq!(slots.get(a), None);
    assert_eq!(slots.pop(a), None);
    assert_eq!(slots.push(30), Ok(a));
    assert_eq!(slots.get(a), Some(&30));
    assert_eq!(slots.get(b), Some(&20));
}

#[test]
fn pop_undoes_push() {
    let mut slots: Slots<u32, u16, 2> = Slots::new();
    slots.push(1).unwrap();
    let s = slots.push(2).unwrap();
    assert_eq!(slots.pop(s), Some(2));
    assert_eq!(slots.push(3), Ok(s));
    assert_eq!(slots.push(4), Err(()));
}

#[test]
fn get_mut_changes_only_that_item() {
    let mut slots: Slots<u32, u16, 3> = Slots::new();
    let a = slots.push(1).unwrap();
    let b = slots.push(2).unwrap();
    *slots.get_mut(a).unwrap() += 40;
    assert_eq!(slots.get(a), Some(&41));
    assert_eq!(slots.get(b), Some(&2));
    assert!(slots.get_mut(0).is_none());
}

#[test]
fn init_empties_everything() {
    let mut slots: Slots<u32, u16, 2> = Slots::new();
    slots.push(1).unwrap();
    slots.push(2).unwrap();
    slots.init();
    assert_eq!(slots.get(0), None);
    assert_eq!(slots.get(1), None);
    assert_eq!(slots.push(5), Ok(1));
}

#[test]
fn grid_starts_empty() {
    let grid: MappedSlots<u32, u8, 3, 2, 4> = MappedSlots::new();
    for y in 0..2u16 {
        for x in 0..3u16 {
            assert_eq!(grid.get_slot_at(pos(x, y)), Ok(None));
        }
    }
    assert_eq!(grid.get_slot_at(pos(3, 0)), Err(MappedSlotsOutOfBoundsError));
    assert_eq!(grid.get_slot_at(pos(0, 2)), Err(MappedSlotsOutOfBoundsError));
}

#[test]
fn push_at_errors_in_order() {
    let mut grid: MappedSlots<u32, u8, 3, 2, 2> = MappedSlots::new();
    assert_eq!(grid.push_at(pos(3, 0), 1), Err(MappedSlotsPushError::PosOutOfBounds));
    assert_eq!(grid.push_at(pos(0, 0), 1), Ok(1));
    assert_eq!(grid.push_at(pos(0, 0), 2), Err(MappedSlotsPushError::AlreadyOccupied));
    assert_eq!(grid.push_at(pos(2, 1), 2), Ok(0));
    assert_eq!(grid.push_at(pos(1, 1), 3), Err(MappedSlotsPushError::Full));
    assert_eq!(grid.push_at(pos(0, 0), 3), Err(MappedSlotsPushError::AlreadyOccupied));
    assert_eq!(grid.push_at(pos(9, 9), 3), Err(MappedSlotsPushError::PosOutOfBounds));
    assert_eq!(grid.get_slot_at(pos(1, 1)), Ok(None));
}

#[test]
fn pop_at_takes_the_item_and_empties_the_cell() {
    let mut grid: MappedSlots<u32, u8, 3, 2, 4> = MappedSlots::new();
    let s = grid.push_at(pos(1, 0), 7).unwrap();
    assert_eq!(grid.get_slot_at(pos(1, 0)), Ok(Some(s)));
    assert_eq!(grid.pop_at(pos(1, 0)), Ok(7));
    assert_eq!(grid.get_slot_at(pos(1, 0)), Ok(None));
    assert_eq!(grid.get(s), None);
    assert_eq!(grid.pop_at(pos(1, 0)), Err(MappedSlotsPopAtError::NotOccupied));
    assert_eq!(grid.pop_at(pos(0, 5)), Err(MappedSlotsPopAtError::PosOutOfBounds));
}

#[test]
fn pop_at_undoes_push_at() {
    let mut grid: MappedSlots<u32, u16, 2, 2, 3> = MappedSlots::new();
    grid.push_at(pos(0, 0), 1).unwrap();
    let s = grid.push_at(pos(1, 1), 2).unwrap();
    assert_eq!(grid.pop_at(pos(1, 1)), Ok(2));
    assert_eq!(grid.get_slot_at(pos(1, 1)), Ok(None));
    assert_eq!(grid.push_at(pos(0, 1), 5), Ok(s));
}

#[test]
fn get_at_reports_slot_and_item() {
    let mut grid: MappedSlots<u32, u8, 3, 2, 4> = MappedSlots::new();
    let s = grid.push_at(pos(2, 1), 99).unwrap();
    match grid.get_at(pos(2, 1)) {
        Ok(Some(SlotItem { item, slot })) => {
            assert_eq!(*item, 99);
            assert_eq!(slot, s);
        }
        _ => panic!("expected an item"),
    }
    assert!(matches!(grid.get_at(pos(0, 0)), Ok(None)));
    assert!(matches!(grid.get_at(pos(3, 1)), Err(MappedSlotsOutOfBoundsError)));
    assert_eq!(grid.get(s), Some(&99));
}

#[test]
fn get_at_mut_writes_through() {
    let mut grid: MappedSlots<u32, u8, 3, 2, 4> = MappedSlots::new();
    let s = grid.push_at(pos(0, 1), 5).unwrap();
    if let Ok(Some(si)) = grid.get_at_mut(pos(0, 1)) {
        assert_eq!(si.slot, s);
        *si.item = 6;
    } else {
        panic!("expected an item");
    }
    assert_eq!(grid.get(s), Some(&6));
    *grid.get_mut(s).unwrap() = 8;
    assert_eq!(grid.pop_at(pos(0, 1)), Ok(8));
    assert!(matches!(grid.get_at_mut(pos(5, 1)), Err(MappedSlotsOutOfBoundsError)));
}

#[test]
fn set_slot_at_swaps_cells() {
    let mut grid: MappedSlots<u32, u8, 3, 2, 4> = MappedSlots::new();
    let a = grid.push_at(pos(0, 0), 1).unwrap();
    let b = grid.push_at(pos(1, 0), 2).unwrap();
    assert_eq!(grid.set_slot_at(pos(0, 0), Some(b)), Ok(()));
    assert_eq!(grid.set_slot_at(pos(1, 0), Some(a)), Ok(()));
    assert_eq!(grid.get_slot_at(pos(0, 0)), Ok(Some(b)));
    assert_eq!(grid.get_slot_at(pos(1, 0)), Ok(Some(a)));
    assert_eq!(grid.set_slot_at(pos(1, 0), None), Ok(()));
    assert_eq!(grid.get_slot_at(pos(1, 0)), Ok(None));
    assert_eq!(grid.set_slot_at(pos(3, 0), None), Err(MappedSlotsOutOfBoundsError));
}

#[test]
fn init_clears_the_grid() {
    let mut grid: MappedSlots<u32, u8, 2, 2, 4> = MappedSlots::new();
    grid.push_at(pos(1, 1), 3).unwrap();
    grid.init();
    assert_eq!(grid.get_slot_at(pos(1, 1)), Ok(None));
    assert_eq!(grid.push_at(pos(1, 1), 4), Ok(3));
}
