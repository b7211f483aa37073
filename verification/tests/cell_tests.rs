use h3o::{CellIndex, Direction, Resolution};
use h3o::Resolution::{
    Eight, Eleven, Fifteen, Five, Four, Fourteen, Nine, One, Seven, Six, Ten, Thirteen, Three,
    Twelve, Two, Zero,
};

#[test]
fn direction_at() {
    let cell = CellIndex::new_unchecked(0x8c2bae305336bff);

    assert_eq!(cell.resolution(), Twelve);

    assert_eq!(cell.direction_at(Zero), None);
    assert_eq!(cell.direction_at(One), Some(Direction::IJ));
    assert_eq!(cell.direction_at(Two), Some(Direction::IK));
    assert_eq!(cell.direction_at(Three), Some(Direction::IJ));
    assert_eq!(cell.direction_at(Four), Some(Direction::K));
    assert_eq!(cell.direction_at(Five), Some(Direction::I));
    assert_eq!(cell.direction_at(Six), Some(Direction::Center));
    assert_eq!(cell.direction_at(Seven), Some(Direction::IK));
    assert_eq!(cell.direction_at(Eight), Some(Direction::K));
    assert_eq!(cell.direction_at(Nine), Some(Direction::I));
    assert_eq!(cell.direction_at(Ten), Some(Direction::IJ));
    assert_eq!(cell.direction_at(Eleven), Some(Direction::IJ));
    assert_eq!(cell.direction_at(Twelve), Some(Direction::IK));
    assert_eq!(cell.direction_at(Thirteen), None);
    assert_eq!(cell.direction_at(Fourteen), None);
    assert_eq!(cell.direction_at(Fifteen), None);
}

#[test]
fn cell_tests_ordering() {
    let mut cells = vec![
        CellIndex::new_unchecked(0x8a194e699ab7fff),
        CellIndex::new_unchecked(0x89194e69d4fffff),
    ];
    let expected = vec![
        CellIndex::new_unchecked(0x8a194e699ab7fff),
        CellIndex::new_unchecked(0x89194e69d4fffff),
    ];

    cells.sort_unstable();

    // `0x89194e69d4fffff` (12-5-1-6-3-2-3-5-2-3) comes AFTER
    // `0x8a194e699ab7fff` (12-5-1-6-3-2-3-1-5-2-6) when sorting.
    assert_eq!(cells, expected);
}

#[test]
fn cell_tests_debug_impl() {
    assert_eq!(
        CellIndex::new_unchecked(0x802bfffffffffff).debug_string(),
        "21-777777777777777 (802bfffffffffff)"
    );
    assert_eq!(
        CellIndex::new_unchecked(0x8c2bae305336bff).debug_string(),
        "21-656140514665777 (8c2bae305336bff)"
    );
    assert_eq!(
        CellIndex::new_unchecked(0x8f2834782b9c2ab).debug_string(),
        "20-064360256341253 (8f2834782b9c2ab)"
    );
}

#[test]
fn cell_try_from_rejects_invalid_values() {
    // Zero: mode is not the cell one.
    assert!(CellIndex::try_from(0).is_err());
    // Reserved bit set.
    assert!(CellIndex::try_from(0x88c2bae305336bff).is_err());
    // Base cell 122 is out of range.
    assert!(CellIndex::try_from(0x080f5fffffffffff).is_err());
    // Unused direction (7) within the resolution.
    assert!(CellIndex::try_from(0x8c2bae305336fff).is_err());
    // Used direction below the resolution.
    assert!(CellIndex::try_from(0x8c2bae305336bf0).is_err());
    // Pentagon whose first non-center direction is the deleted `K` one.
    assert!(CellIndex::try_from(0x81083ffffffffff).is_ok());
    assert!(CellIndex::try_from(0x81087ffffffffff).is_err());
    let err = CellIndex::try_from(0).unwrap_err();
    assert_eq!(err.value, Some(0));
}

#[test]
fn cell_is_pentagon() {
    assert!(CellIndex::try_from(0x820807fffffffff).unwrap().is_pentagon());
    assert!(!CellIndex::try_from(0x820887fffffffff).unwrap().is_pentagon());
    assert_eq!(CellIndex::try_from(0x820807fffffffff).unwrap().vertex_count(), 5);
    assert_eq!(CellIndex::try_from(0x820887fffffffff).unwrap().vertex_count(), 6);
    assert_eq!(CellIndex::try_from(0x820807fffffffff).unwrap().max_face_count(), 5);
}

#[test]
fn cell_parent_and_center_child() {
    let cell = CellIndex::try_from(0x8a1fb46622dffff).unwrap();
    let parent = cell.parent(Resolution::Eight).unwrap();
    assert_eq!(u64::from(parent), 0x881fb46623fffff);
    assert_eq!(cell.parent(Resolution::Eleven), None);
    assert_eq!(cell.parent(Resolution::Ten), Some(cell));

    let child = parent.center_child(Resolution::Ten).unwrap();
    assert_eq!(u64::from(child), 0x8a1fb4662207fff);
    assert_eq!(child.parent(Resolution::Eight), Some(parent));
    assert_eq!(parent.center_child(Resolution::Seven), None);
}

#[test]
fn cell_children_count() {
    let hexagon = CellIndex::try_from(0x8a1fb46622dffff).unwrap();
    assert_eq!(hexagon.children_count(Resolution::Ten), 1);
    assert_eq!(hexagon.children_count(Resolution::Eleven), 7);
    assert_eq!(hexagon.children_count(Resolution::Twelve), 49);
    assert_eq!(hexagon.children_count(Resolution::Nine), 0);

    let pentagon = CellIndex::try_from(0x820807fffffffff).unwrap();
    assert_eq!(pentagon.children_count(Resolution::Two), 1);
    assert_eq!(pentagon.children_count(Resolution::Three), 6);
    assert_eq!(pentagon.children_count(Resolution::Four), 41);
    let base = CellIndex::try_from(0x8009fffffffffff).unwrap();
    assert_eq!(base.children_count(Resolution::Fifteen), 3_956_301_258_286);
}

#[test]
fn cell_first_last_and_base_cells() {
    assert_eq!(u64::from(CellIndex::first(Resolution::Zero)), 0x8001fffffffffff);
    assert_eq!(u64::from(CellIndex::last(Resolution::Zero)), 0x80f3fffffffffff);
    assert_eq!(u64::from(CellIndex::first(Resolution::Two)), 0x820007fffffffff);
    let base_cells = CellIndex::base_cells();
    assert_eq!(base_cells.len(), 122);
    assert_eq!(u64::from(base_cells[0]), 0x8001fffffffffff);
    assert_eq!(u64::from(base_cells[121]), 0x80f3fffffffffff);
}

#[test]
fn cell_to_string_and_from_str() {
    let cell = CellIndex::try_from(0x8a1fb46622dffff).unwrap();
    assert_eq!(cell.to_string(), "8a1fb46622dffff");
    assert_eq!(CellIndex::from_str("8a1fb46622dffff"), Ok(cell));
    assert_eq!("8A1FB46622DFFFF".parse::<CellIndex>(), Ok(cell));
    assert_eq!("+8a1fb46622dffff".parse::<CellIndex>(), Ok(cell));
    assert!("".parse::<CellIndex>().is_err());
    assert!("+".parse::<CellIndex>().is_err());
    assert!("8a1fb46622dfffz".parse::<CellIndex>().is_err());
    assert!("18a1fb46622dfffff".parse::<CellIndex>().is_err());
    assert_eq!(
        CellIndex::from_str("0").unwrap_err(),
        h3o::error::InvalidCellIndex { value: Some(0) }
    );
    assert_eq!(
        CellIndex::from_str("xyz").unwrap_err(),
        h3o::error::InvalidCellIndex { value: None }
    );
}

#[test]
fn resolution_pentagons() {
    let pentagons = Resolution::Two.pentagons();
    assert_eq!(pentagons.len(), 12);
    assert!(pentagons.iter().all(|cell| cell.is_pentagon()));
    assert!(pentagons.iter().all(|cell| cell.resolution() == Resolution::Two));
    assert_eq!(u64::from(pentagons[0]), 0x820807fffffffff);
    let bases = pentagons.iter().map(|cell| cell.base_cell().to_u8()).collect::<Vec<_>>();
    assert_eq!(bases, vec![4, 14, 24, 38, 49, 58, 63, 72, 83, 97, 107, 117]);
}

#[test]
fn text_roundtrip_over_a_resolution() {
    let mut current = CellIndex::first(Resolution::Two);
    loop {
        let text = current.to_string();
        assert_eq!(CellIndex::from_str(&text), Ok(current));
        match current.succ() {
            Some(next) => current = next,
            None => break,
        }
    }
    for res in 0..=15u8 {
        let resolution = Resolution::try_from(res).unwrap();
        assert_eq!(Resolution::from_str(&resolution.to_string()), Ok(resolution));
    }
}

#[test]
fn center_child_is_first_child_and_parent_gives_back() {
    for bits in [0x8a1fb46622dffffu64, 0x820807fffffffff, 0x8009fffffffffff] {
        let cell = CellIndex::try_from(bits).unwrap();
        for res in cell.resolution().to_u8()..=15u8 {
            let resolution = Resolution::try_from(res).unwrap();
            let child = cell.center_child(resolution).expect("center child");
            assert_eq!(child.parent(cell.resolution()), Some(cell));
            assert_eq!(child.child_position(cell.resolution()), Some(0));
            assert_eq!(cell.child_at(0, resolution), Some(child));
        }
    }
}

#[test]
fn pentagons_are_all_the_pentagon_cells() {
    for resolution in [Resolution::Zero, Resolution::One, Resolution::Two] {
        let pentagons = resolution.pentagons();
        let mut found = Vec::new();
        let mut current = Some(CellIndex::first(resolution));
        while let Some(cell) = current {
            if cell.is_pentagon() {
                found.push(cell);
            }
            current = cell.succ();
        }
        assert_eq!(found, pentagons);
    }
}
