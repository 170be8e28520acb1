use rand::rngs::StdRng;
use rand::SeedableRng;
use river_network::sources::sample_inland_cell;

#[test]
fn inland_cells_stay_inside_the_margin() {
    let mut rng = StdRng::seed_from_u64(42);
    for _ in 0..1000 {
        let (x, y) = sample_inland_cell(&mut rng, 50, 300, 200);
        assert!((50..250).contains(&x));
        assert!((50..150).contains(&y));
    }
}

#[test]
fn inland_cells_are_drawn_across_the_range() {
    let mut rng = StdRng::seed_from_u64(7);
    let cells: Vec<(usize, usize)> = (0..200).map(|_| sample_inland_cell(&mut rng, 1, 100, 100)).collect();
    assert!(cells.iter().any(|&(x, _)| x != 1));
    assert!(cells.iter().any(|&(_, y)| y != 1));
    assert!(cells.iter().any(|&(x, y)| x != y));
}

#[test]
fn inland_cells_repeat_for_the_same_seed() {
    let mut a = StdRng::seed_from_u64(2024);
    let mut b = StdRng::seed_from_u64(2024);
    for _ in 0..50 {
        assert_eq!(sample_inland_cell(&mut a, 10, 64, 64), sample_inland_cell(&mut b, 10, 64, 64));
    }
}

#[test]
fn a_single_inland_cell() {
    let mut rng = StdRng::seed_from_u64(1);
    assert_eq!(sample_inland_cell(&mut rng, 2, 5, 5), (2, 2));
}
