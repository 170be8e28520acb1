use river_network::accumulation::calculate_flow_accumulation;
use river_network::grid::{downstream, drains_into, shift};
use river_network::particle::get_index;
use river_network::paths::{create_single_river_mask, flow_path, trace_path_length};
use river_network::segments::{extract_river_segments_masked, steepest_direction, RiverSegment};
use river_network::stream_order::calculate_stream_order;
use river_network::watershed::{
    delineate_watersheds, find_pour_points, trace_downstream_to_watershed, trace_watershed_upstream,
};
use river_network::FlowDirection;
use river_network::FlowDirection::{East, North, NorthEast, NorthWest, NoFlow, South, SouthEast, SouthWest, West};

/// 3x3 grid where everything drains to the bottom-right corner:
/// the first two columns run east, the last column runs south.
fn grid_a() -> Vec<FlowDirection> {
    vec![East, East, South, East, East, South, East, East, NoFlow]
}

/// 3x3 grid with two basins: the top row drains east into the pit at (2, 0);
/// the rest drains into the pit at (0, 1).
fn grid_b() -> Vec<FlowDirection> {
    vec![East, East, NoFlow, NoFlow, West, West, North, North, North]
}

/// 3x3 grid where two tributaries meet at the centre and run south.
fn grid_c() -> Vec<FlowDirection> {
    vec![SouthEast, NoFlow, SouthWest, NoFlow, South, NoFlow, NoFlow, NoFlow, NoFlow]
}

#[test]
fn offset_of_each_direction() {
    assert_eq!(NoFlow.offset(), (0, 0));
    assert_eq!(North.offset(), (0, -1));
    assert_eq!(NorthEast.offset(), (1, -1));
    assert_eq!(East.offset(), (1, 0));
    assert_eq!(SouthEast.offset(), (1, 1));
    assert_eq!(South.offset(), (0, 1));
    assert_eq!(SouthWest.offset(), (-1, 1));
    assert_eq!(West.offset(), (-1, 0));
    assert_eq!(NorthWest.offset(), (-1, -1));
}

#[test]
fn all_lists_the_eight_directions_in_order() {
    assert_eq!(
        FlowDirection::all(),
        [North, NorthEast, East, SouthEast, South, SouthWest, West, NorthWest]
    );
}

#[test]
fn directions_encode_as_bit_flags() {
    let dirs = [NoFlow, North, NorthEast, East, SouthEast, South, SouthWest, West, NorthWest];
    let flags = [0u8, 1, 2, 4, 8, 16, 32, 64, 128];
    for (d, f) in dirs.iter().zip(flags.iter()) {
        assert_eq!(d.bits(), *f);
        assert_eq!(FlowDirection::from_bits(*f), Some(*d));
    }
    assert_eq!(FlowDirection::from_bits(3), None);
    assert_eq!(FlowDirection::from_bits(255), None);
}

#[test]
fn diagonal_directions() {
    let diagonal: Vec<bool> = FlowDirection::all().iter().map(|d| d.is_diagonal()).collect();
    assert_eq!(diagonal, vec![false, true, false, true, false, true, false, true]);
    assert!(!NoFlow.is_diagonal());
}

#[test]
fn get_index_in_and_out_of_grid() {
    assert_eq!(get_index(1, 2, 3, 3), Some(7));
    assert_eq!(get_index(0, 0, 3, 3), Some(0));
    assert_eq!(get_index(3, 0, 3, 3), None);
    assert_eq!(get_index(0, 3, 3, 3), None);
    assert_eq!(get_index(0, 0, 0, 0), None);
}

#[test]
fn shift_stays_on_the_grid() {
    assert_eq!(shift(0, 0, -1, 0, 3, 3), None);
    assert_eq!(shift(0, 0, 0, -1, 3, 3), None);
    assert_eq!(shift(2, 1, 1, 0, 3, 3), None);
    assert_eq!(shift(1, 1, 1, 1, 3, 3), Some((2, 2)));
    assert_eq!(shift(1, 1, -1, -1, 3, 3), Some((0, 0)));
}

#[test]
fn downstream_follows_the_direction() {
    let fd = grid_a();
    assert_eq!(downstream(&fd, 0, 0, 3, 3), Some((1, 0)));
    assert_eq!(downstream(&fd, 2, 0, 3, 3), Some((2, 1)));
    assert_eq!(downstream(&fd, 2, 2, 3, 3), None);
    // Flowing off the grid stops the flow.
    let off = vec![West];
    assert_eq!(downstream(&off, 0, 0, 1, 1), None);
    assert!(drains_into(&fd, 1, 1, 2, 1, 3, 3));
    assert!(!drains_into(&fd, 1, 1, 1, 2, 3, 3));
}

#[test]
fn steepest_direction_picks_first_largest_positive_key() {
    assert_eq!(steepest_direction(&[0, 5, 7, 7, 0, 0, 0, 0]), East);
    assert_eq!(steepest_direction(&[3, 0, 0, 0, 0, 0, 0, 0]), North);
    assert_eq!(steepest_direction(&[0, 0, 0, 0, 0, 0, 0, 1]), NorthWest);
    assert_eq!(steepest_direction(&[0; 8]), NoFlow);
}

#[test]
fn trace_path_length_to_the_pit() {
    let fd = grid_a();
    assert_eq!(trace_path_length(&fd, 0, 0, 3, 3), 4);
    assert_eq!(trace_path_length(&fd, 2, 2, 3, 3), 0);
    assert_eq!(trace_path_length(&fd, 1, 2, 3, 3), 1);
}

#[test]
fn trace_path_length_stops_after_width_plus_height_moves() {
    // Two cells draining into each other forever.
    let fd = vec![East, West];
    assert_eq!(trace_path_length(&fd, 0, 0, 2, 1), 3);
}

#[test]
fn flow_path_lists_visited_cells() {
    let fd = grid_a();
    assert_eq!(flow_path(&fd, 0, 0, 3, 3), vec![(0, 0), (1, 0), (2, 0), (2, 1), (2, 2)]);
    let cycle = vec![East, West];
    assert_eq!(flow_path(&cycle, 0, 0, 2, 1), vec![(0, 0), (1, 0), (0, 0)]);
}

#[test]
fn flow_path_has_one_cell_more_than_the_traced_moves() {
    let fd = grid_a();
    for y in 0..3 {
        for x in 0..3 {
            assert_eq!(flow_path(&fd, x, y, 3, 3).len(), trace_path_length(&fd, x, y, 3, 3) + 1);
        }
    }
    // A path cut by the step limit lists as many cells as the limit.
    let cycle = vec![East, West];
    assert_eq!(trace_path_length(&cycle, 0, 0, 2, 1), 3);
    assert_eq!(flow_path(&cycle, 0, 0, 2, 1).len(), 3);
}

#[test]
fn single_river_mask_holds_path_and_tributaries() {
    let fd = grid_b();
    assert_eq!(
        create_single_river_mask(&fd, (0, 0), 3, 3),
        vec![true, true, true, false, false, false, false, false, false]
    );
    assert_eq!(
        create_single_river_mask(&fd, (2, 1), 3, 3),
        vec![false, false, false, true, true, true, true, true, true]
    );
    let fd = grid_a();
    assert_eq!(create_single_river_mask(&fd, (1, 0), 3, 3), vec![true; 9]);
}

#[test]
fn flow_accumulation_counts_upstream_cells() {
    let fd = grid_a();
    assert_eq!(calculate_flow_accumulation(&fd, 3, 3), vec![1, 2, 3, 1, 2, 6, 1, 2, 9]);
    let fd = grid_b();
    assert_eq!(calculate_flow_accumulation(&fd, 3, 3), vec![1, 2, 3, 6, 4, 2, 1, 1, 1]);
}

#[test]
fn flow_accumulation_on_a_cycle_passes_nothing_on() {
    let fd = vec![East, West];
    assert_eq!(calculate_flow_accumulation(&fd, 2, 1), vec![1, 1]);
    // A cell upstream of a cycle still passes its water into it.
    let fd = vec![East, East, West];
    assert_eq!(calculate_flow_accumulation(&fd, 3, 1), vec![1, 2, 1]);
}

#[test]
fn flow_accumulation_of_an_empty_grid() {
    assert_eq!(calculate_flow_accumulation(&Vec::new(), 0, 0), Vec::<usize>::new());
}

#[test]
fn stream_order_joins_equal_tributaries() {
    let fd = grid_c();
    let flow: Vec<u32> = calculate_flow_accumulation(&fd, 3, 3).iter().map(|&c| c as u32).collect();
    assert_eq!(flow, vec![1, 1, 1, 1, 3, 1, 1, 4, 1]);
    assert_eq!(calculate_stream_order(&fd, &flow, 3, 3, 1), vec![1, 1, 1, 1, 2, 1, 1, 2, 1]);
    assert_eq!(calculate_stream_order(&fd, &flow, 3, 3, 2), vec![0, 0, 0, 0, 1, 0, 0, 1, 0]);
    assert_eq!(calculate_stream_order(&fd, &flow, 3, 3, 5), vec![0; 9]);
}

#[test]
fn stream_order_keeps_highest_of_unequal_tributaries() {
    // (0,0) and (1,0) join at (0,1), which becomes order 2 and runs east into
    // (1,1); (2,1) brings an order-1 stream from the east; (1,1) drains south.
    let fd = vec![South, SouthWest, NoFlow, East, South, West, NoFlow, NoFlow, NoFlow];
    let flow = vec![1u32; 9];
    let orders = calculate_stream_order(&fd, &flow, 3, 3, 1);
    assert_eq!(orders, vec![1, 1, 1, 2, 2, 1, 1, 2, 1]);
}

#[test]
fn stream_order_carries_far_against_the_scan_order() {
    // Two order-1 tributaries meet at (29, 1); the order-2 river then runs
    // west along the middle row for 29 cells, against the scan order.
    let w = 30;
    let mut fd = vec![NoFlow; w * 3];
    let mut flow = vec![0u32; w * 3];
    for x in 1..w {
        fd[w + x] = West;
    }
    fd[w - 1] = South;
    fd[3 * w - 1] = North;
    for x in 0..w {
        flow[w + x] = 10;
    }
    flow[w - 1] = 10;
    flow[3 * w - 1] = 10;
    let orders = calculate_stream_order(&fd, &flow, w, 3, 5);
    let mut expected = vec![0u8; w * 3];
    for x in 0..w {
        expected[w + x] = 2;
    }
    expected[w - 1] = 1;
    expected[3 * w - 1] = 1;
    assert_eq!(orders, expected);
}

#[test]
fn pour_points_sorted_by_flow() {
    let flow = vec![1, 2, 3, 6, 4, 2, 1, 1, 1];
    assert_eq!(find_pour_points(&flow, 3, 3, 2), vec![(0, 1, 6), (2, 0, 3)]);
    assert_eq!(find_pour_points(&flow, 3, 3, 100), vec![]);
}

#[test]
fn pour_points_keep_ties_in_search_order_and_stop_at_thirty() {
    let flow = vec![7u32; 20];
    let found = find_pour_points(&flow, 20, 1, 0);
    assert_eq!(found.len(), 30);
    for (k, p) in found.iter().enumerate() {
        assert_eq!(*p, (k / 2, 0, 7));
    }
}

#[test]
fn watersheds_from_pour_points() {
    let fd = grid_b();
    let flow = vec![1, 2, 3, 6, 4, 2, 1, 1, 1];
    let (ids, count) = delineate_watersheds(&fd, &flow, 3, 3, 2);
    assert_eq!(ids, vec![2, 2, 2, 1, 1, 1, 1, 1, 1]);
    assert_eq!(count, 2);
}

#[test]
fn watersheds_without_pour_points_number_basins_in_cell_order() {
    let fd = grid_b();
    let flow = vec![1, 2, 3, 6, 4, 2, 1, 1, 1];
    let (ids, count) = delineate_watersheds(&fd, &flow, 3, 3, 100);
    assert_eq!(ids, vec![1, 1, 1, 2, 2, 2, 2, 2, 2]);
    assert_eq!(count, 2);
}

#[test]
fn one_basin_gets_one_id_without_pour_points() {
    let fd = vec![East, East, NoFlow];
    let (ids, count) = delineate_watersheds(&fd, &vec![1, 2, 3], 3, 1, 10);
    assert_eq!(ids, vec![1, 1, 1]);
    assert_eq!(count, 1);
}

#[test]
fn pour_points_of_one_basin_share_its_id() {
    // Every cell is a pour point; they all drain to (2, 0).
    let fd = vec![East, East, NoFlow];
    let (ids, count) = delineate_watersheds(&fd, &vec![1, 2, 3], 3, 1, 0);
    assert_eq!(ids, vec![1, 1, 1]);
    assert_eq!(count, 1);
}

#[test]
fn a_cycle_and_what_drains_into_it_form_one_basin() {
    // (0, 0) and (1, 0) drain into each other; (2, 0) drains into the cycle.
    let fd = vec![East, West, West];
    let (ids, count) = delineate_watersheds(&fd, &vec![0, 0, 0], 3, 1, 10);
    assert_eq!(ids, vec![1, 1, 1]);
    assert_eq!(count, 1);
}

#[test]
fn cells_share_an_id_with_the_cell_they_drain_into() {
    let fd = grid_b();
    let flow: Vec<u32> = calculate_flow_accumulation(&fd, 3, 3).iter().map(|&c| c as u32).collect();
    for threshold in [0u32, 2, 100] {
        let (ids, _) = delineate_watersheds(&fd, &flow, 3, 3, threshold);
        for y in 0..3 {
            for x in 0..3 {
                if let Some((nx, ny)) = downstream(&fd, x, y, 3, 3) {
                    assert_eq!(ids[y * 3 + x], ids[ny * 3 + nx]);
                }
            }
        }
    }
}

#[test]
fn watersheds_single_basin() {
    let fd = grid_a();
    let flow = vec![1, 2, 3, 1, 2, 6, 1, 2, 9];
    let (ids, count) = delineate_watersheds(&fd, &flow, 3, 3, 5);
    assert_eq!(ids, vec![1; 9]);
    assert_eq!(count, 1);
}

#[test]
fn trace_downstream_finds_first_assigned_cell() {
    let fd = grid_a();
    let ids = vec![0, 0, 0, 0, 0, 7, 0, 0, 9];
    assert_eq!(trace_downstream_to_watershed(&fd, &ids, 3, 3, 0, 0), 7);
    assert_eq!(trace_downstream_to_watershed(&fd, &ids, 3, 3, 0, 2), 9);
    let none = vec![0; 9];
    assert_eq!(trace_downstream_to_watershed(&fd, &none, 3, 3, 0, 0), 0);
}

#[test]
fn trace_upstream_assigns_unassigned_feeders() {
    let fd = grid_a();
    // (2, 0) is assigned already, so (0, 0) and (1, 0) are cut off from (2, 2).
    let mut ids = vec![0, 0, 5, 0, 0, 0, 0, 0, 0];
    trace_watershed_upstream(&fd, &mut ids, 3, 3, 2, 2, 3);
    assert_eq!(ids, vec![0, 0, 5, 3, 3, 3, 3, 3, 3]);
    // Starting from an assigned cell changes nothing.
    let mut ids = vec![0, 0, 0, 0, 0, 0, 0, 0, 1];
    trace_watershed_upstream(&fd, &mut ids, 3, 3, 2, 2, 4);
    assert_eq!(ids, vec![0, 0, 0, 0, 0, 0, 0, 0, 1]);
}

#[test]
fn river_segments_from_cells_above_threshold() {
    let fd = grid_a();
    let flow = vec![1, 2, 3, 1, 2, 6, 1, 2, 9];
    let orders = vec![0, 1, 1, 0, 1, 2, 0, 1, 2];
    let ids = vec![1; 9];
    let segments = extract_river_segments_masked(&fd, &flow, &orders, &ids, 3, 3, 2, None);
    let starts: Vec<(usize, usize)> = segments.iter().map(|s| s.start).collect();
    assert_eq!(starts, vec![(1, 0), (2, 0), (1, 1), (2, 1), (1, 2)]);
    assert_eq!(
        segments[3],
        RiverSegment { start: (2, 1), end: (2, 2), flow: 6, stream_order: 2, watershed_id: 1 }
    );
    let mask = vec![false, false, true, false, false, false, false, true, false];
    let masked = extract_river_segments_masked(&fd, &flow, &orders, &ids, 3, 3, 2, Some(&mask));
    let starts: Vec<(usize, usize)> = masked.iter().map(|s| s.start).collect();
    assert_eq!(starts, vec![(2, 0), (1, 2)]);
}

#[test]
fn watershed_ids_are_dense_and_follow_pour_points() {
    // Largest pour point first: the basin of (0, 1) is 1, that of (2, 0) is 2.
    let fd = grid_b();
    let flow: Vec<u32> = calculate_flow_accumulation(&fd, 3, 3).iter().map(|&c| c as u32).collect();
    let (ids, count) = delineate_watersheds(&fd, &flow, 3, 3, 2);
    for k in 1..=count {
        assert!(ids.contains(&k));
    }
    for (j, &id) in ids.iter().enumerate() {
        assert!(id >= 1 && id <= count, "cell {} has id {}", j, id);
    }
    assert_eq!(ids[3], 1);
    assert_eq!(ids[8], 1);
    assert_eq!(ids[0], 2);
}

#[test]
fn accumulation_equals_upstream_area_on_a_larger_grid() {
    // A 4x4 grid draining in a spiral into (1, 1).
    let fd = vec![
        East, East, East, South, //
        South, NoFlow, West, South, //
        South, North, West, West, //
        East, East, North, West, //
    ];
    let acc = calculate_flow_accumulation(&fd, 4, 4);
    // Count, for each cell, the cells whose flow reaches it.
    let succ = |i: usize| -> Option<usize> {
        let (x, y) = ((i % 4) as i32, (i / 4) as i32);
        let (dx, dy) = fd[i].offset();
        if fd[i] == NoFlow {
            return None;
        }
        let (nx, ny) = (x + dx, y + dy);
        if nx >= 0 && nx < 4 && ny >= 0 && ny < 4 {
            Some((ny * 4 + nx) as usize)
        } else {
            None
        }
    };
    for i in 0..16 {
        let mut area = 0;
        for j in 0..16 {
            let mut c = Some(j);
            for _ in 0..17 {
                match c {
                    Some(k) if k == i => {
                        area += 1;
                        break;
                    }
                    Some(k) => c = succ(k),
                    None => break,
                }
            }
        }
        assert_eq!(acc[i], area, "cell {}", i);
    }
    assert_eq!(acc[5], 16);
}

#[test]
fn converged_stream_orders_follow_the_strahler_rule() {
    // Two order-2 streams meet and form an order-3 stream:
    // (0,0) and (1,0) join at (1,1); (3,0) and (4,0) join at (3,1);
    // (1,1) and (3,1) join at (2,2), which drains into (2,3).
    let fd = vec![
        SouthEast, South, NoFlow, South, SouthWest, //
        NoFlow, SouthEast, NoFlow, SouthWest, NoFlow, //
        NoFlow, NoFlow, South, NoFlow, NoFlow, //
        NoFlow, NoFlow, NoFlow, NoFlow, NoFlow, //
    ];
    let flow = vec![1u32; 20];
    let orders = calculate_stream_order(&fd, &flow, 5, 4, 1);
    let mut expected = vec![1u8; 20];
    expected[6] = 2;
    expected[8] = 2;
    expected[12] = 3;
    expected[17] = 3;
    assert_eq!(orders, expected);
}
