use h3o::{CellIndex, Resolution};

#[test]
fn child_position_doc_example() {
    let index = CellIndex::try_from(0x8a1fb46622dffff).unwrap();
    assert_eq!(index.child_position(Resolution::Eight), Some(24));
    assert_eq!(index.child_position(Resolution::Twelve), None);
}

#[test]
fn child_at_doc_example() {
    let index = CellIndex::try_from(0x881fb46623fffff).unwrap();
    assert_eq!(
        index.child_at(24, Resolution::Ten),
        CellIndex::try_from(0x8a1fb46622dffff).ok(),
    );
    assert_eq!(index.child_at(24, Resolution::Five), None);
}

#[test]
fn child_position_of_itself_is_zero() {
    let index = CellIndex::try_from(0x8a1fb46622dffff).unwrap();
    assert_eq!(index.child_position(Resolution::Ten), Some(0));
    assert_eq!(index.child_at(0, Resolution::Ten), Some(index));
    assert_eq!(index.child_at(1, Resolution::Ten), None);
}

#[test]
fn child_position_round_trip_pentagon() {
    let pentagon = CellIndex::try_from(0x820807fffffffff).unwrap();
    let count = pentagon.children_count(Resolution::Five);
    assert_eq!(count, 286);
    for position in 0..count {
        let child = pentagon.child_at(position, Resolution::Five).unwrap();
        assert_eq!(child.parent(Resolution::Two), Some(pentagon));
        assert_eq!(child.child_position(Resolution::Two), Some(position));
    }
    assert_eq!(pentagon.child_at(count, Resolution::Five), None);
}

#[test]
fn child_position_round_trip_fine_cells() {
    for value in [0x8f2834782b9c2abu64, 0x8c2bae305336bff, 0x8e0800000000007, 0x8f754e64992d6d8] {
        let cell = CellIndex::try_from(value).unwrap();
        for r in 0..=u8::from(cell.resolution()) {
            let resolution = Resolution::try_from(r).unwrap();
            let parent = cell.parent(resolution).unwrap();
            let position = cell.child_position(resolution).unwrap();
            assert!(position < parent.children_count(cell.resolution()));
            assert_eq!(parent.child_at(position, cell.resolution()), Some(cell));
        }
    }
}

#[test]
fn child_at_last_position() {
    let base = CellIndex::try_from(0x8009fffffffffff).unwrap();
    let count = base.children_count(Resolution::Fifteen);
    let last = base.child_at(count - 1, Resolution::Fifteen).unwrap();
    assert_eq!(u64::from(last), 0x8f09b6db6db6db6);
    assert_eq!(last.child_position(Resolution::Zero), Some(count - 1));
    assert_eq!(base.child_at(count, Resolution::Fifteen), None);
}
