use h3o::{CellIndex, Resolution};

fn cell(bits: u64) -> CellIndex {
    CellIndex::try_from(bits).expect("valid cell index")
}

#[test]
fn succ_doc_example() {
    let start = cell(0x823147fffffffff);
    let after = start.succ().expect("next cell index");
    assert_eq!(u64::from(after), 0x82314ffffffffff);
}

#[test]
fn pred_doc_example() {
    let start = cell(0x823147fffffffff);
    let before = start.pred().expect("previous cell index");
    assert_eq!(u64::from(before), 0x823137fffffffff);
}

#[test]
fn succ_skips_deleted_subsequence() {
    assert_eq!(u64::from(cell(0x820807fffffffff).succ().unwrap()), 0x820817fffffffff);
    assert_eq!(u64::from(cell(0x81083ffffffffff).succ().unwrap()), 0x8108bffffffffff);
    assert_eq!(u64::from(cell(0x830806fffffffff).succ().unwrap()), 0x830810fffffffff);
}

#[test]
fn pred_skips_deleted_subsequence() {
    assert_eq!(u64::from(cell(0x820817fffffffff).pred().unwrap()), 0x820807fffffffff);
    assert_eq!(u64::from(cell(0x8108bffffffffff).pred().unwrap()), 0x81083ffffffffff);
    assert_eq!(u64::from(cell(0x830810fffffffff).pred().unwrap()), 0x830806fffffffff);
}

#[test]
fn succ_moves_to_next_base_cell() {
    assert_eq!(u64::from(cell(0x820bb7fffffffff).succ().unwrap()), 0x820c07fffffffff);
    assert_eq!(u64::from(cell(0x836db6fffffffff).succ().unwrap()), 0x836e00fffffffff);
    assert_eq!(u64::from(cell(0x8001fffffffffff).succ().unwrap()), 0x8003fffffffffff);
}

#[test]
fn pred_moves_to_previous_base_cell() {
    assert_eq!(u64::from(cell(0x820c07fffffffff).pred().unwrap()), 0x820bb7fffffffff);
    assert_eq!(u64::from(cell(0x8003fffffffffff).pred().unwrap()), 0x8001fffffffffff);
}

#[test]
fn first_has_no_pred_and_last_no_succ() {
    for res in 0..=15u8 {
        let resolution = Resolution::try_from(res).unwrap();
        assert_eq!(CellIndex::first(resolution).pred(), None);
        assert_eq!(CellIndex::last(resolution).succ(), None);
        assert!(CellIndex::first(resolution).succ().is_some());
        assert!(CellIndex::last(resolution).pred().is_some());
    }
}

#[test]
fn succ_walks_every_cell_of_a_resolution() {
    for resolution in [Resolution::Zero, Resolution::One, Resolution::Two, Resolution::Three] {
        let mut count: u64 = 1;
        let mut current = CellIndex::first(resolution);
        let mut previous = u64::from(current);
        while let Some(next) = current.succ() {
            assert_eq!(next.resolution(), resolution);
            assert!(u64::from(next) > previous);
            assert!(next > current);
            assert_eq!(next.pred(), Some(current));
            previous = u64::from(next);
            current = next;
            count += 1;
        }
        assert_eq!(current, CellIndex::last(resolution));
        assert_eq!(count, resolution.cell_count());
    }
}

#[test]
fn pred_walks_every_cell_of_a_resolution() {
    for resolution in [Resolution::One, Resolution::Two] {
        let mut count: u64 = 1;
        let mut current = CellIndex::last(resolution);
        while let Some(prev) = current.pred() {
            assert_eq!(prev.succ(), Some(current));
            current = prev;
            count += 1;
        }
        assert_eq!(current, CellIndex::first(resolution));
        assert_eq!(count, resolution.cell_count());
    }
}
