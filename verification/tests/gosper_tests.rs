use h3o::index::Gosper;
use h3o::{CellIndex, DirectedEdgeIndex, Resolution};
use std::collections::HashSet;

fn collect(mut iter: Gosper) -> Vec<DirectedEdgeIndex> {
    let mut out = Vec::new();
    while let Some(edge) = iter.next() {
        out.push(edge);
    }
    out
}

// Assert that the Gosper iterator produces the expected edges.
//
// Order is checked, but starting point may vary.
fn assert_edges(index: CellIndex, resolution: Resolution, expected: &[DirectedEdgeIndex]) {
    let mut result = collect(Gosper::new(index, resolution));

    assert_eq!(result.len(), expected.len(), "wrong number of edges");

    let Some(first) = expected.first() else {
        return;
    };
    let offset = result
        .iter()
        .position(|edge| edge == first)
        .expect("first edge not found");
    result.rotate_left(offset);

    assert_eq!(result, expected, "edges mismatch");
}

fn edge_set(values: &[u64]) -> HashSet<DirectedEdgeIndex> {
    values
        .iter()
        .copied()
        .map(|value| DirectedEdgeIndex::try_from(value).unwrap())
        .collect::<HashSet<_>>()
}

#[test]
fn hexagon_2_to_2() {
    let cell = CellIndex::try_from(0x820887fffffffff).unwrap();
    let expected = [
        0x1320887fffffffff,
        0x1120887fffffffff,
        0x1520887fffffffff,
        0x1420887fffffffff,
        0x1620887fffffffff,
        0x1220887fffffffff,
    ]
    .iter()
    .copied()
    .map(|value| DirectedEdgeIndex::try_from(value).unwrap())
    .collect::<Vec<_>>();

    assert_edges(cell, Resolution::Two, &expected);
}

#[test]
fn pentagon_2_to_2() {
    let cell = CellIndex::try_from(0x820807fffffffff).unwrap();
    let expected = [
        0x1320807fffffffff,
        0x1520807fffffffff,
        0x1420807fffffffff,
        0x1620807fffffffff,
        0x1220807fffffffff,
    ]
    .iter()
    .copied()
    .map(|value| DirectedEdgeIndex::try_from(value).unwrap())
    .collect::<Vec<_>>();

    assert_edges(cell, Resolution::Two, &expected);
}

#[test]
fn hexagon_2_to_4() {
    let cell = CellIndex::try_from(0x82c64ffffffffff).unwrap();
    let expected = edge_set(&[
        0x134c6497ffffffff, 0x114c6497ffffffff, 0x134c6493ffffffff,
        0x114c6493ffffffff, 0x154c6493ffffffff, 0x114c649bffffffff,
        0x154c649bffffffff, 0x144c649bffffffff, 0x154c6499ffffffff,
        0x114c64d3ffffffff, 0x154c64d3ffffffff, 0x114c64dbffffffff,
        0x154c64dbffffffff, 0x144c64dbffffffff, 0x154c64d9ffffffff,
        0x144c64d9ffffffff, 0x164c64d9ffffffff, 0x144c64ddffffffff,
        0x154c64cbffffffff, 0x144c64cbffffffff, 0x154c64c9ffffffff,
        0x144c64c9ffffffff, 0x164c64c9ffffffff, 0x144c64cdffffffff,
        0x164c64cdffffffff, 0x124c64cdffffffff, 0x164c64c5ffffffff,
        0x144c64e9ffffffff, 0x164c64e9ffffffff, 0x144c64edffffffff,
        0x164c64edffffffff, 0x124c64edffffffff, 0x164c64e5ffffffff,
        0x124c64e5ffffffff, 0x134c64e5ffffffff, 0x124c64e7ffffffff,
        0x164c64adffffffff, 0x124c64adffffffff, 0x164c64a5ffffffff,
        0x124c64a5ffffffff, 0x134c64a5ffffffff, 0x124c64a7ffffffff,
        0x134c64a7ffffffff, 0x114c64a7ffffffff, 0x134c64a3ffffffff,
        0x124c64b5ffffffff, 0x134c64b5ffffffff, 0x124c64b7ffffffff,
        0x134c64b7ffffffff, 0x114c64b7ffffffff, 0x134c64b3ffffffff,
        0x114c64b3ffffffff, 0x154c64b3ffffffff, 0x114c64bbffffffff,
    ]);

    let result = collect(Gosper::new(cell, Resolution::Four))
        .into_iter()
        .collect::<HashSet<_>>();

    assert_eq!(result, expected);
}

#[test]
fn pentagon_2_to_4() {
    let cell = CellIndex::try_from(0x820807fffffffff).unwrap();
    let expected = edge_set(&[
        0x11408053ffffffff, 0x15408053ffffffff, 0x1140805bffffffff,
        0x1540805bffffffff, 0x1440805bffffffff, 0x15408059ffffffff,
        0x14408059ffffffff, 0x16408059ffffffff, 0x1440805dffffffff,
        0x1540804bffffffff, 0x1440804bffffffff, 0x15408049ffffffff,
        0x14408049ffffffff, 0x16408049ffffffff, 0x1440804dffffffff,
        0x1640804dffffffff, 0x1240804dffffffff, 0x16408045ffffffff,
        0x14408069ffffffff, 0x16408069ffffffff, 0x1440806dffffffff,
        0x1640806dffffffff, 0x1240806dffffffff, 0x16408065ffffffff,
        0x12408065ffffffff, 0x13408065ffffffff, 0x12408067ffffffff,
        0x1640802dffffffff, 0x1240802dffffffff, 0x16408025ffffffff,
        0x12408025ffffffff, 0x13408025ffffffff, 0x12408027ffffffff,
        0x13408027ffffffff, 0x11408027ffffffff, 0x13408023ffffffff,
        0x12408035ffffffff, 0x13408035ffffffff, 0x12408037ffffffff,
        0x13408037ffffffff, 0x11408037ffffffff, 0x13408033ffffffff,
        0x11408033ffffffff, 0x15408033ffffffff, 0x1140803bffffffff,
    ]);

    let result = collect(Gosper::new(cell, Resolution::Four))
        .into_iter()
        .collect::<HashSet<_>>();

    assert_eq!(result, expected);
}

#[test]
fn hexagon_1_to_3() {
    let cell = CellIndex::try_from(0x81c67ffffffffff).unwrap();
    let expected = edge_set(&[
        0x133c64afffffffff, 0x123c64bfffffffff, 0x133c64bfffffffff,
        0x113c64bfffffffff, 0x133c649fffffffff, 0x113c649fffffffff,
        0x153c649fffffffff, 0x113c64dfffffffff, 0x153c64dfffffffff,
        0x113c66bfffffffff, 0x133c669fffffffff, 0x113c669fffffffff,
        0x153c669fffffffff, 0x113c66dfffffffff, 0x153c66dfffffffff,
        0x143c66dfffffffff, 0x153c66cfffffffff, 0x143c66cfffffffff,
        0x153c661fffffffff, 0x113c665fffffffff, 0x153c665fffffffff,
        0x143c665fffffffff, 0x153c664fffffffff, 0x143c664fffffffff,
        0x163c664fffffffff, 0x143c666fffffffff, 0x163c666fffffffff,
        0x143c675fffffffff, 0x153c674fffffffff, 0x143c674fffffffff,
        0x163c674fffffffff, 0x143c676fffffffff, 0x163c676fffffffff,
        0x123c676fffffffff, 0x163c672fffffffff, 0x123c672fffffffff,
        0x163c654fffffffff, 0x143c656fffffffff, 0x163c656fffffffff,
        0x123c656fffffffff, 0x163c652fffffffff, 0x123c652fffffffff,
        0x133c652fffffffff, 0x123c653fffffffff, 0x133c653fffffffff,
        0x123c65efffffffff, 0x163c65afffffffff, 0x123c65afffffffff,
        0x133c65afffffffff, 0x123c65bfffffffff, 0x133c65bfffffffff,
        0x113c65bfffffffff, 0x133c659fffffffff, 0x113c659fffffffff,
    ]);

    let result = collect(Gosper::new(cell, Resolution::Three))
        .into_iter()
        .collect::<HashSet<_>>();

    assert_eq!(result, expected);
}

#[test]
fn pentagon_1_to_3() {
    let cell = CellIndex::try_from(0x81083ffffffffff).unwrap();
    let expected = edge_set(&[
        0x113082bfffffffff, 0x1330829fffffffff, 0x1130829fffffffff,
        0x1530829fffffffff, 0x113082dfffffffff, 0x153082dfffffffff,
        0x143082dfffffffff, 0x153082cfffffffff, 0x143082cfffffffff,
        0x1530821fffffffff, 0x1130825fffffffff, 0x1530825fffffffff,
        0x1430825fffffffff, 0x1530824fffffffff, 0x1430824fffffffff,
        0x1630824fffffffff, 0x1430826fffffffff, 0x1630826fffffffff,
        0x1430835fffffffff, 0x1530834fffffffff, 0x1430834fffffffff,
        0x1630834fffffffff, 0x1430836fffffffff, 0x1630836fffffffff,
        0x1230836fffffffff, 0x1630832fffffffff, 0x1230832fffffffff,
        0x1630814fffffffff, 0x1430816fffffffff, 0x1630816fffffffff,
        0x1230816fffffffff, 0x1630812fffffffff, 0x1230812fffffffff,
        0x1330812fffffffff, 0x1230813fffffffff, 0x1330813fffffffff,
        0x123081efffffffff, 0x163081afffffffff, 0x123081afffffffff,
        0x133081afffffffff, 0x123081bfffffffff, 0x133081bfffffffff,
        0x113081bfffffffff, 0x1330819fffffffff, 0x1130819fffffffff,
    ]);

    let result = collect(Gosper::new(cell, Resolution::Three))
        .into_iter()
        .collect::<HashSet<_>>();

    assert_eq!(result, expected);
}

// Every edge is unique, starts from a child of the cell at the outline's
// resolution, and the count is `6 * 3^delta` (5 for a pentagon); the
// iterator stays exhausted.
fn assert_iterator_properties(index: CellIndex, child_resolution: Resolution) {
    let parent_resolution = index.resolution();
    let delta = u8::from(child_resolution) - u8::from(parent_resolution);
    let nb_sides = if index.is_pentagon() { 5 } else { 6 };
    let expected_count = nb_sides * 3_usize.pow(delta.into());

    let mut iter = Gosper::new(index, child_resolution);
    assert_eq!(iter.size_hint(), (expected_count, Some(expected_count)));
    let mut edges = HashSet::with_capacity(expected_count);
    while let Some(edge) = iter.next() {
        assert!(edges.insert(edge));
        assert_eq!(edge.origin().resolution(), child_resolution);
        let parent_origin = edge.origin().parent(parent_resolution).unwrap();
        assert_eq!(parent_origin, index, "origin *is* a child of parent cell");
    }
    assert_eq!(edges.len(), expected_count, "incorrect number of edges");
    for _ in 0..100 {
        assert!(iter.next().is_none());
    }
}

// The edges' destinations and end points are not part of this library:
// the properties checked are uniqueness, resolution, origin under the cell,
// count and fused behaviour.
#[test]
fn finer_resolution() {
    let cells = [
        0x8508000ffffffff, // res 5 hexagon
        0x85080003fffffff, // res 5 pentagon
        0x8808000009fffff, // res 8 hexagon
        0x8808000001fffff, // res 8 pentagon
        0x8a0800000017fff, // res 10 hexagon
        0x8a0800000007fff, // res 10 pentagon
        0x8e754e64992d6c7, // res 14 hexagon
        0x8e0800000000007, // res 14 pentagon
        0x8f754e64992d6d8, // res 15 hexagon
        0x8f0800000000000, // res 15 pentagon
    ];
    for value in cells {
        let cell = CellIndex::try_from(value).unwrap();
        let parent_resolution = u8::from(cell.resolution());
        for gap in 0..=5 {
            if let Ok(resolution) = Resolution::try_from(parent_resolution + gap) {
                assert_iterator_properties(cell, resolution);
            }
        }
    }
}

#[test]
fn gosper_coarser_resolution_is_empty() {
    let cell = CellIndex::try_from(0x820887fffffffff).unwrap();
    let mut iter = Gosper::new(cell, Resolution::One);
    assert_eq!(iter.size_hint(), (0, Some(0)));
    assert!(iter.next().is_none());
}

#[test]
fn own_edges_at_the_cell_resolution() {
    let hexagon = CellIndex::try_from(0x820887fffffffff).unwrap();
    assert_eq!(
        collect(Gosper::new(hexagon, Resolution::Two))
            .into_iter()
            .map(u64::from)
            .collect::<Vec<_>>(),
        vec![
            0x1320887fffffffff,
            0x1120887fffffffff,
            0x1520887fffffffff,
            0x1420887fffffffff,
            0x1620887fffffffff,
            0x1220887fffffffff,
        ]
    );
    let pentagon = CellIndex::try_from(0x820807fffffffff).unwrap();
    assert_eq!(
        collect(Gosper::new(pentagon, Resolution::Two))
            .into_iter()
            .map(u64::from)
            .collect::<Vec<_>>(),
        vec![
            0x1320807fffffffff,
            0x1520807fffffffff,
            0x1420807fffffffff,
            0x1620807fffffffff,
            0x1220807fffffffff,
        ]
    );
}
