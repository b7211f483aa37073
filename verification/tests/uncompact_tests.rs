use h3o::{CellIndex, Resolution};

#[test]
fn uncompact_size_counts_children() {
    let index = CellIndex::try_from(0x8a1fb46622dffff).unwrap();
    assert_eq!(CellIndex::uncompact_size(&[index], Resolution::Eleven), 7);
    let pentagon = CellIndex::try_from(0x820807fffffffff).unwrap();
    assert_eq!(CellIndex::uncompact_size(&[index, pentagon], Resolution::Eleven), 7 + 33_628_006);
    assert_eq!(CellIndex::uncompact_size(&[], Resolution::Eleven), 0);
    assert_eq!(CellIndex::uncompact_size(&[index], Resolution::Nine), 0);
}

#[test]
fn uncompact_lists_children_in_turn() {
    let index = CellIndex::try_from(0x8a1fb46622dffff).unwrap();
    let pentagon = CellIndex::try_from(0x820807fffffffff).unwrap();
    let cells = CellIndex::uncompact(&[pentagon, index], Resolution::Three);
    // The hexagon (resolution 10) has no child at resolution 3.
    assert_eq!(cells.len(), 6);
    assert_eq!(cells[0], pentagon.center_child(Resolution::Three).unwrap());

    let cells = CellIndex::uncompact(&[index, index], Resolution::Eleven);
    assert_eq!(cells.len(), 14);
    assert_eq!(cells[0..7], cells[7..14]);
    for (n, cell) in cells[0..7].iter().enumerate() {
        assert_eq!(cell.parent(Resolution::Ten), Some(index));
        assert_eq!(cell.child_position(Resolution::Ten), Some(n as u64));
    }
}
