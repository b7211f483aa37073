use h3o::{CellIndex, DirectedEdgeIndex, Edge};

#[test]
fn edge_tests_zero_is_invalid() {
    assert!(DirectedEdgeIndex::try_from(0).is_err());
}

#[test]
fn edge() {
    assert!(Edge::try_from(0).is_err()); // Out of range.
    assert!(Edge::try_from(1).is_ok()); // Lower bound.
    assert!(Edge::try_from(3).is_ok()); // Valid value.
    assert!(Edge::try_from(6).is_ok()); // Upper bound.
    assert!(Edge::try_from(7).is_err()); // Out of range.

    assert_eq!(u8::from(Edge::new_unchecked(1)), 1); // Lower bound.
    assert_eq!(u8::from(Edge::new_unchecked(3)), 3); // Valid value.
    assert_eq!(u8::from(Edge::new_unchecked(6)), 6); // Upper bound.
}

#[test]
fn edge_tests_ordering_by_index() {
    let mut cells = vec![
        DirectedEdgeIndex::new_unchecked(0x13a194e699ab7fff),
        DirectedEdgeIndex::new_unchecked(0x139194e69d4fffff),
    ];
    let expected = vec![
        DirectedEdgeIndex::new_unchecked(0x13a194e699ab7fff),
        DirectedEdgeIndex::new_unchecked(0x139194e69d4fffff),
    ];

    cells.sort_unstable();

    // `0x139194e69d4fffff` (12-5-1-6-3-2-3-5-2-3) comes AFTER
    // `0x13a194e699ab7fff` (12-5-1-6-3-2-3-1-5-2-6) when sorting.
    assert_eq!(cells, expected);
}

#[test]
fn ordering_by_edge() {
    let mut cells = vec![
        DirectedEdgeIndex::new_unchecked(0x159194e69d4fffff),
        DirectedEdgeIndex::new_unchecked(0x139194e69d4fffff),
    ];
    let expected = vec![
        DirectedEdgeIndex::new_unchecked(0x139194e69d4fffff),
        DirectedEdgeIndex::new_unchecked(0x159194e69d4fffff),
    ];

    cells.sort_unstable();

    // `0x139194e69d4fffff` (12-5-1-6-3-2-3-5-2-3/E3) comes BEFORE
    // `0x159194e69d4fffff` (12-5-1-6-3-2-3-5-2-3/E5).
    assert_eq!(cells, expected);
}

#[test]
fn edge_tests_debug_impl() {
    assert_eq!(
        DirectedEdgeIndex::new_unchecked(0x1302bfffffffffff).debug_string(),
        "21-777777777777777_3 (1302bfffffffffff)"
    );
    assert_eq!(
        DirectedEdgeIndex::new_unchecked(0x13c2bae305336bff).debug_string(),
        "21-656140514665777_3 (13c2bae305336bff)"
    );
    assert_eq!(
        DirectedEdgeIndex::new_unchecked(0x15f2834782b9c2ab).debug_string(),
        "20-064360256341253_5 (15f2834782b9c2ab)"
    );
}

#[test]
fn edge_origin_and_number() {
    let edge = DirectedEdgeIndex::try_from(0x13c2bae305336bff).unwrap();
    assert_eq!(u64::from(edge.origin()), 0x8c2bae305336bff);
    assert_eq!(u8::from(edge.edge()), 3);
    assert_eq!(edge.to_string(), "13c2bae305336bff");
    assert_eq!(DirectedEdgeIndex::from_str("13c2bae305336bff"), Ok(edge));
    assert_eq!(
        DirectedEdgeIndex::from_str("8c2bae305336bff").unwrap_err(),
        h3o::error::InvalidDirectedEdgeIndex { value: Some(0x8c2bae305336bff) }
    );
}

#[test]
fn edge_try_from_rejects_pentagon_k_edge() {
    // Pentagon origin: its `K` edge is deleted.
    assert!(DirectedEdgeIndex::try_from(0x1120807fffffffff_u64).is_err());
}

#[test]
fn cell_edges() {
    let hexagon = CellIndex::try_from(0x820887fffffffff).unwrap();
    let edges = hexagon.edges();
    assert_eq!(edges.len(), 6);
    assert_eq!(u64::from(edges[0]), 0x1120887fffffffff);
    assert_eq!(u64::from(edges[5]), 0x1620887fffffffff);

    let pentagon = CellIndex::try_from(0x820807fffffffff).unwrap();
    let edges = pentagon.edges();
    assert_eq!(edges.len(), 5);
    assert_eq!(u64::from(edges[0]), 0x1220807fffffffff);
    assert!(edges.iter().all(|edge| edge.origin() == pentagon));
}
