use poisson_disk_sampling::geometry::{distance_squared, new_sample_point, point_in_rect, Point};
use poisson_disk_sampling::grid::{
    cell_in_grid, cell_size, cells_to_cover, grid_to_index, screen_to_grid, screen_to_index,
    SpatialGrid,
};
use poisson_disk_sampling::random::RandomSource;
use poisson_disk_sampling::sampler::{
    generate_points, generate_points_with, grid_dimensions, ring_offset, try_candidate,
    SampleError,
};

fn d2(p: &Point, q: &Point) -> i128 {
    let dx = p.x as i128 - q.x as i128;
    let dy = p.y as i128 - q.y as i128;
    dx * dx + dy * dy
}

fn assert_poisson(points: &[Point], d: u32, width: u32, height: u32) {
    assert!(!points.is_empty());
    assert_eq!(points[0], Point { x: width / 2, y: height / 2 });
    let dd = d as i128 * d as i128;
    for (i, p) in points.iter().enumerate() {
        if i > 0 {
            assert!(0 < p.x && p.x < width && 0 < p.y && p.y < height);
            assert!(points[..i].iter().any(|q| dd <= d2(p, q) && d2(p, q) < 4 * dd));
        }
        for q in &points[i + 1..] {
            assert!(d2(p, q) >= dd);
        }
    }
}

#[test]
fn square_of_hundred_with_spacing_twenty_five() {
    let points = generate_points(25, (100, 100)).unwrap();
    assert_eq!(points[0], Point { x: 50, y: 50 });
    assert!(points.len() >= 1);
    assert!(points.len() <= 20);
    assert_poisson(&points, 25, 100, 100);
}

#[test]
fn grid_of_six_by_six_for_spacing_twenty_five() {
    assert_eq!(grid_dimensions(25, (100, 100)), (6, 6));
    assert_eq!(grid_dimensions(25, (800, 600)), (36, 48));
}

#[test]
fn spacing_beyond_diagonal_gives_seed_only() {
    let points = generate_points(142, (100, 100)).unwrap();
    assert_eq!(points, vec![Point { x: 50, y: 50 }]);
    let points = generate_points(1000, (30, 70)).unwrap();
    assert_eq!(points, vec![Point { x: 15, y: 35 }]);
}

#[test]
fn window_sized_region_is_a_poisson_sample() {
    let points = generate_points(25, (800, 600)).unwrap();
    assert!(points.len() > 100);
    assert_poisson(&points, 25, 800, 600);
}

#[test]
fn unit_spacing_fills_a_small_region() {
    let points = generate_points(1, (10, 10)).unwrap();
    assert_poisson(&points, 1, 10, 10);
    assert!(points.len() <= 82);
}

#[test]
fn long_thin_region() {
    let points = generate_points(3, (200, 2)).unwrap();
    assert_poisson(&points, 3, 200, 2);
    assert!(points.iter().all(|p| p.y == 1));
}

#[test]
fn zero_spacing_or_thin_side_is_rejected() {
    assert_eq!(generate_points(0, (100, 100)), Err(SampleError::InvalidInput));
    assert_eq!(generate_points(25, (0, 100)), Err(SampleError::InvalidInput));
    assert_eq!(generate_points(25, (100, 0)), Err(SampleError::InvalidInput));
    assert_eq!(generate_points(1, (1, 1)), Err(SampleError::InvalidInput));
    assert_eq!(generate_points(1, (1, 50)), Err(SampleError::InvalidInput));
    assert_eq!(generate_points(1, (50, 1)), Err(SampleError::InvalidInput));
    assert_eq!(generate_points(1, (2, 2)), Ok(vec![Point { x: 1, y: 1 }]));
}

#[test]
fn replayed_draws_give_the_same_sample() {
    let script: Vec<u64> = vec![3, 141, 59, 26, 53, 58, 97, 93, 23, 84, 62, 64, 33, 83, 27, 95];
    let mut a = RandomSource::replay(script.clone());
    let mut b = RandomSource::replay(script);
    let first = generate_points_with(25, (400, 300), &mut a).unwrap();
    let second = generate_points_with(25, (400, 300), &mut b).unwrap();
    assert_eq!(first, second);
    assert_poisson(&first, 25, 400, 300);
}

#[test]
fn replay_of_zeros_falls_back_to_a_fixed_offset() {
    // every square draw is (-(2d - 1), -(2d - 1)), outside the ring, so each
    // attempt settles for the offset (d, 0): the seed's neighbour (75, 50) is
    // accepted, and from there (100, 50) lies on the border
    let mut source = RandomSource::replay(vec![0]);
    let points = generate_points_with(25, (100, 100), &mut source).unwrap();
    assert_eq!(points, vec![Point { x: 50, y: 50 }, Point { x: 75, y: 50 }]);
}

#[test]
fn ring_offsets_from_a_replay() {
    let mut source = RandomSource::replay(vec![34, 19]);
    assert_eq!(ring_offset(&mut source, 10), (15, 0));
    let mut zeros = RandomSource::replay(vec![0]);
    assert_eq!(ring_offset(&mut zeros, 10), (10, 0));
    let mut generator = RandomSource::generator();
    for _ in 0..500 {
        let (ox, oy) = ring_offset(&mut generator, 25);
        let r2 = ox * ox + oy * oy;
        assert!(625 <= r2 && r2 < 2500);
    }
}

#[test]
fn candidates_are_accepted_exactly_when_valid() {
    let d: u32 = 10;
    let (rows, cols) = grid_dimensions(d, (100, 100));
    let mut grid = SpatialGrid::new(rows as usize, cols as usize, cell_size(d));
    let mut points: Vec<Point> = Vec::new();
    let seed = Point { x: 50, y: 50 };
    grid.insert(&points, seed);
    points.push(seed);
    let mut active: Vec<usize> = vec![0];
    assert!(try_candidate(&mut grid, &mut points, &mut active, 0, 15, 0, d, (100, 100)));
    assert_eq!(points, vec![seed, Point { x: 65, y: 50 }]);
    assert_eq!(active, vec![0, 1]);
    // too close to (65, 50)
    assert!(!try_candidate(&mut grid, &mut points, &mut active, 0, 12, 5, d, (100, 100)));
    // on the far side of the seed, and far from (65, 50)
    assert!(try_candidate(&mut grid, &mut points, &mut active, 0, -10, 0, d, (100, 100)));
    // outside the region
    assert!(!try_candidate(&mut grid, &mut points, &mut active, 1, 19, 0, d, (80, 100)));
    assert_eq!(points.len(), 3);
    assert_eq!(active, vec![0, 1, 2]);
}

#[test]
fn replay_with_one_accepted_candidate() {
    // spacing 10: an offset is a draw modulo 39, minus 19; the first round
    // picks the seed (0), then tries the offset (34 - 19, 19 - 19) = (15, 0),
    // which lands on (65, 50)
    let mut source = RandomSource::replay(vec![0, 34, 19]);
    let points = generate_points_with(10, (100, 100), &mut source).unwrap();
    assert_eq!(points[0], Point { x: 50, y: 50 });
    assert_eq!(points[1], Point { x: 65, y: 50 });
    assert_poisson(&points, 10, 100, 100);
}

#[test]
fn replay_cycles_through_its_values() {
    let mut source = RandomSource::replay(vec![7, 3]);
    assert_eq!(source.below(5), 2);
    assert_eq!(source.below(5), 3);
    assert_eq!(source.below(5), 2);
    assert_eq!(source.below(2), 1);
    let mut empty = RandomSource::replay(vec![]);
    assert_eq!(empty.below(9), 0);
}

#[test]
fn generator_stays_below_its_bound() {
    let mut source = RandomSource::generator();
    for n in [1u64, 2, 3, 10, 1000, u32::MAX as u64 + 7] {
        for _ in 0..200 {
            assert!(source.below(n) < n);
        }
    }
    let draws: Vec<u64> = (0..100).map(|_| source.below(1000)).collect();
    assert!(draws.iter().any(|&v| v != draws[0]));
}

#[test]
fn boundary_points_are_rejected() {
    assert!(!point_in_rect(0, 50, 100, 100));
    assert!(!point_in_rect(100, 50, 100, 100));
    assert!(!point_in_rect(50, 0, 100, 100));
    assert!(!point_in_rect(50, 100, 100, 100));
    assert!(!point_in_rect(-3, 50, 100, 100));
    assert!(point_in_rect(1, 1, 100, 100));
    assert!(point_in_rect(99, 99, 100, 100));
}

#[test]
fn squared_distances() {
    assert_eq!(distance_squared(Point { x: 0, y: 0 }, Point { x: 3, y: 4 }), 25);
    assert_eq!(distance_squared(Point { x: 3, y: 4 }, Point { x: 0, y: 0 }), 25);
    let far = distance_squared(Point { x: 0, y: 0 }, Point { x: u32::MAX, y: u32::MAX });
    assert_eq!(far, 2 * (u32::MAX as u128) * (u32::MAX as u128));
}

#[test]
fn candidate_offsets() {
    assert_eq!(new_sample_point(50, 50, -60, 10), (-10, 60));
    assert_eq!(new_sample_point(0, 7, 0, 0), (0, 7));
}

#[test]
fn cell_sides() {
    assert_eq!(cell_size(25), 17);
    assert_eq!(cell_size(1), 1);
    assert_eq!(cell_size(2), 1);
    assert_eq!(cell_size(3), 2);
    assert_eq!(cell_size(100), 70);
    assert_eq!(cell_size(u32::MAX), 3037000499);
}

#[test]
fn covering_cell_counts() {
    assert_eq!(cells_to_cover(100, 17), 6);
    assert_eq!(cells_to_cover(102, 17), 6);
    assert_eq!(cells_to_cover(103, 17), 7);
    assert_eq!(cells_to_cover(0, 17), 0);
    assert_eq!(cells_to_cover(u32::MAX, 1), u32::MAX);
}

#[test]
fn grid_cell_of_a_point() {
    assert_eq!(screen_to_grid(40, 20, 17), (1, 2));
    assert_eq!(screen_to_index(40, 20, 17, 6), 8);
    assert_eq!(grid_to_index(2, 3, 6), 15);
    assert_eq!(grid_to_index(0, 0, 6), 0);
}

#[test]
fn grid_bounds() {
    assert!(cell_in_grid(0, 0, 6, 6));
    assert!(cell_in_grid(5, 5, 6, 6));
    assert!(!cell_in_grid(6, 0, 6, 6));
    assert!(!cell_in_grid(0, 6, 6, 6));
    assert!(!cell_in_grid(-1, 2, 6, 6));
    assert!(!cell_in_grid(2, -2, 6, 6));
}
