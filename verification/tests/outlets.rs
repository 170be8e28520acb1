use river_network::outlets::{select_major_outlets, MAX_OUTLETS, OUTLET_SPACING};
use river_network::segments::RiverSegment;

/// A river step ending at `end` with the given flow key.
fn river_to(end: (usize, usize), flow: u32) -> RiverSegment {
    RiverSegment { start: (end.0, end.1), end, flow, stream_order: 1, watershed_id: 1 }
}

#[test]
fn outlets_at_the_edge_ranked_by_flow() {
    let segments = vec![river_to((0, 10), 5), river_to((199, 150), 9), river_to((100, 0), 7)];
    let outlets = select_major_outlets(&segments, 200, 200, 3);
    assert_eq!(outlets, vec![(199, 150, 9), (100, 0, 7), (0, 10, 5)]);
}

#[test]
fn outlets_ignore_inland_ends_and_low_flow() {
    let segments = vec![
        river_to((100, 100), 50), // inland
        river_to((3, 100), 50),   // three cells in: not near the edge
        river_to((197, 100), 50), // 197 + 3 == 200: not near the edge
        river_to((198, 100), 50), // near the right edge
        river_to((0, 0), 3),      // flow not above the minimum
    ];
    let outlets = select_major_outlets(&segments, 200, 200, 3);
    assert_eq!(outlets, vec![(198, 100, 50)]);
}

#[test]
fn nearby_river_with_more_flow_moves_the_outlet() {
    let segments = vec![river_to((0, 10), 5), river_to((0, 40), 8), river_to((0, 45), 6)];
    let outlets = select_major_outlets(&segments, 200, 200, 3);
    assert_eq!(outlets, vec![(0, 40, 8)]);
}

#[test]
fn river_exactly_at_the_spacing_neither_adds_nor_merges() {
    assert_eq!(OUTLET_SPACING, 50);
    // (0, 50) is exactly 50 cells from (0, 0).
    let segments = vec![river_to((0, 0), 5), river_to((30, 0), 4), river_to((0, 50), 9), river_to((0, 51), 2)];
    let outlets = select_major_outlets(&segments, 200, 200, 1);
    // (30, 0) is near but has less flow; (0, 50) is neither farther nor
    // nearer than the spacing; (0, 51) is farther: a new outlet.
    assert_eq!(outlets, vec![(0, 0, 5), (0, 51, 2)]);
}

#[test]
fn at_most_sixteen_outlets_are_kept() {
    let mut segments = Vec::new();
    for k in 0..20usize {
        segments.push(river_to((0, k * 60), 10 + k as u32));
    }
    let outlets = select_major_outlets(&segments, 10, 2000, 0);
    assert_eq!(MAX_OUTLETS, 16);
    assert_eq!(outlets.len(), 16);
    assert_eq!(outlets[0], (0, 19 * 60, 29));
    assert_eq!(outlets[15], (0, 4 * 60, 14));
}

#[test]
fn outlets_of_no_rivers() {
    let outlets = select_major_outlets(&Vec::new(), 2, 2, 0);
    assert!(outlets.is_empty());
}
