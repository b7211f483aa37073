use h3o::error::CompactionError;
use h3o::{CellIndex, Resolution};

fn cells(values: &[u64]) -> Vec<CellIndex> {
    values
        .iter()
        .map(|value| CellIndex::try_from(*value).expect("valid cell index"))
        .collect()
}

fn sorted(mut cells: Vec<CellIndex>) -> Vec<CellIndex> {
    cells.sort();
    cells
}

#[test]
fn compact_doc_example() {
    let input = cells(&[
        0x081003ffffffffff,
        0x081023ffffffffff,
        0x081043ffffffffff,
        0x081063ffffffffff,
        0x081083ffffffffff,
        0x0810a3ffffffffff,
        0x0810c3ffffffffff,
    ]);
    // The center children of 7 base cells: nothing to compact.
    let compacted = CellIndex::compact(&input).expect("compacted");
    assert_eq!(sorted(compacted), sorted(input.clone()));
    // All the children of base cell 0 compact to it.
    let base = CellIndex::try_from(0x8001fffffffffff).unwrap();
    let children = CellIndex::uncompact(&[base], Resolution::One);
    assert_eq!(CellIndex::compact(&children), Ok(vec![base]));
}

#[test]
fn compact_incomplete_set_is_unchanged() {
    let base = CellIndex::try_from(0x8001fffffffffff).unwrap();
    let mut input = CellIndex::uncompact(&[base], Resolution::One);
    input.remove(4);
    let compacted = CellIndex::compact(&input).expect("compacted");
    assert_eq!(sorted(compacted), sorted(input));
}

#[test]
fn compact_pentagon_children() {
    let pentagon = CellIndex::try_from(0x8009fffffffffff).unwrap();
    let children = CellIndex::uncompact(&[pentagon], Resolution::One);
    assert_eq!(children.len(), 6);
    let compacted = CellIndex::compact(&children).expect("compacted");
    assert_eq!(compacted, vec![pentagon]);
}

#[test]
fn compact_recursively() {
    let cell = CellIndex::try_from(0x8a1fb46622dffff).unwrap();
    let mut children = CellIndex::uncompact(&[cell], Resolution::Twelve);
    assert_eq!(children.len(), 49);
    // Not a complete set anymore: the other 6 groups of 7 still compact.
    let removed = children.remove(10);
    let compacted = sorted(CellIndex::compact(&children).expect("compacted"));
    assert_eq!(compacted.len(), 6 + 6);
    assert!(!compacted.contains(&cell));
    let back = sorted(CellIndex::uncompact(&compacted, Resolution::Twelve));
    assert_eq!(back, sorted(children.clone()));
    assert!(!back.contains(&removed));
}

#[test]
fn compact_errors() {
    let heterogeneous = cells(&[0x8a1fb46622dffff, 0x89283082837ffff]);
    assert_eq!(
        CellIndex::compact(&heterogeneous),
        Err(CompactionError::HeterogeneousResolution)
    );
    let duplicated = cells(&[0x8a1fb46622dffff, 0x8a1fb46622d7fff, 0x8a1fb46622dffff]);
    assert_eq!(CellIndex::compact(&duplicated), Err(CompactionError::DuplicateInput));
    assert_eq!(CellIndex::compact(&[]), Ok(Vec::new()));
}

#[test]
fn compact_then_uncompact_gives_back_the_cells() {
    // Every cell at resolution 2 below two base cells, minus a few.
    let bases = cells(&[0x8001fffffffffff, 0x8009fffffffffff]);
    let mut input = CellIndex::uncompact(&bases, Resolution::Two);
    input.remove(3);
    input.remove(50);
    let compacted = CellIndex::compact(&input).expect("compacted");
    assert!(compacted.len() < input.len());
    let back = sorted(CellIndex::uncompact(&compacted, Resolution::Two));
    assert_eq!(back, sorted(input));
}
