use h3o::{CellIndex, Resolution};

#[test]
fn children_tests_disk_distance_safe_is_fused() {
    let origin = CellIndex::try_from(0x85002c27fffffff).unwrap();
    let mut iter = origin.children(Resolution::Six);

    for _ in 0..7 {
        assert!(iter.next().is_some());
    }
    for _ in 0..7 {
        assert!(iter.next().is_none());
    }
}

fn collect(mut iter: h3o::index::Children) -> Vec<CellIndex> {
    let mut out = Vec::new();
    while let Some(cell) = iter.next() {
        out.push(cell);
    }
    out
}

#[test]
fn children_of_hexagon_in_order() {
    let cell = CellIndex::try_from(0x8a1fb46622dffff).unwrap();
    let children = collect(cell.children(Resolution::Eleven));
    assert_eq!(children.len(), 7);
    let values = children.iter().map(|c| u64::from(*c)).collect::<Vec<_>>();
    assert_eq!(
        values,
        vec![
            0x8b1fb46622d8fff,
            0x8b1fb46622d9fff,
            0x8b1fb46622dafff,
            0x8b1fb46622dbfff,
            0x8b1fb46622dcfff,
            0x8b1fb46622ddfff,
            0x8b1fb46622defff,
        ]
    );
    // The position of each child is its rank in the listing.
    for (n, child) in children.iter().enumerate() {
        assert_eq!(child.child_position(Resolution::Ten), Some(n as u64));
        assert_eq!(cell.child_at(n as u64, Resolution::Eleven), Some(*child));
    }
}

#[test]
fn children_of_pentagon_skip_deleted_subsequence() {
    let cell = CellIndex::try_from(0x820807fffffffff).unwrap();
    let children = collect(cell.children(Resolution::Three));
    assert_eq!(children.len(), 6);
    let digits = children
        .iter()
        .map(|c| c.direction_at(Resolution::Three).unwrap().to_u8())
        .collect::<Vec<_>>();
    assert_eq!(digits, vec![0, 2, 3, 4, 5, 6]);
    let grandchildren = collect(cell.children(Resolution::Four));
    assert_eq!(grandchildren.len(), 41);
    for (n, child) in grandchildren.iter().enumerate() {
        assert!(child.is_pentagon() == (n == 0));
        assert_eq!(child.child_position(Resolution::Two), Some(n as u64));
        assert_eq!(cell.child_at(n as u64, Resolution::Four), Some(*child));
    }
    assert_eq!(cell.child_at(41, Resolution::Four), None);
}

#[test]
fn children_coarser_resolution_is_empty() {
    let cell = CellIndex::try_from(0x8a1fb46622dffff).unwrap();
    let mut iter = cell.children(Resolution::Nine);
    assert_eq!(iter.size_hint(), (0, Some(0)));
    assert!(iter.next().is_none());
    let mut same = cell.children(Resolution::Ten);
    assert_eq!(same.size_hint(), (1, Some(1)));
    assert_eq!(same.next(), Some(cell));
    assert!(same.next().is_none());
}

#[test]
fn children_count_is_the_number_of_children() {
    for bits in [0x8a1fb46622dffffu64, 0x820807fffffffff, 0x8009fffffffffff] {
        let cell = CellIndex::try_from(bits).unwrap();
        for res in cell.resolution().to_u8()..=(cell.resolution().to_u8() + 3).min(15) {
            let resolution = Resolution::try_from(res).unwrap();
            let children = collect(cell.children(resolution));
            assert_eq!(children.len() as u64, cell.children_count(resolution));
            assert!(children.windows(2).all(|pair| pair[0] < pair[1]));
            let mut sorted = children.clone();
            sorted.sort();
            sorted.dedup();
            assert_eq!(sorted.len(), children.len());
            for child in children {
                assert_eq!(child.resolution(), resolution);
                assert_eq!(child.parent(cell.resolution()), Some(cell));
            }
        }
    }
}
