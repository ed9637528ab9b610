use julia_blockchain::binary32::Binary32;
use julia_blockchain::maths::{
    advance, escape_time, find_point, verify, Complex, EscapeResult, MAX_ITERATIONS,
};
use rand::distributions::{Distribution, Uniform};
use rand::rngs::StdRng;
use rand::SeedableRng;

fn number(x: f32) -> Binary32 {
    Binary32::from_bits(x.to_bits())
}

fn point(x: f32, y: f32) -> Complex {
    Complex::new(number(x), number(y))
}

/// The oracle on hardware floats.
fn reference(c: (f32, f32), p: (f32, f32), cap: u32) -> EscapeResult {
    let mut i: u32 = 0;
    let (mut x, mut y) = p;
    loop {
        if x * x + y * y > 4. || i == cap {
            break;
        }
        let tmp = x * x - y * y + c.0;
        y = 2.0 * x * y + c.1;
        x = tmp;
        i += 1;
    }
    if i == cap {
        EscapeResult::Bounded
    } else {
        EscapeResult::Escaped(i)
    }
}

fn grid(side: u32) -> Vec<(f32, f32)> {
    let mut points = Vec::new();
    for i in 0..side {
        for j in 0..side {
            let x = -2.0 + 4.0 * (i as f32) / (side as f32 - 1.0);
            let y = -2.0 + 4.0 * (j as f32) / (side as f32 - 1.0);
            points.push((x, y));
        }
    }
    points
}

fn seeded_pool(seed: u64, radius: f32, count: usize) -> Vec<(f32, f32)> {
    let mut rng = StdRng::seed_from_u64(seed);
    let side = Uniform::from(-radius..radius);
    let mut pool = Vec::with_capacity(count);
    for _ in 0..count {
        pool.push((side.sample(&mut rng), side.sample(&mut rng)));
    }
    pool
}

fn as_points(pool: &[(f32, f32)]) -> Vec<Complex> {
    pool.iter().map(|&(x, y)| point(x, y)).collect()
}

#[test]
fn squared_magnitude_is_computed_in_binary32() {
    assert_eq!(point(3.0, 0.0).sq().to_bits(), 9.0f32.to_bits());
    assert_eq!(point(1.5, -2.0).sq().to_bits(), 6.25f32.to_bits());
    assert_eq!(point(0.1, 0.2).sq().to_bits(), (0.1f32 * 0.1f32 + 0.2f32 * 0.2f32).to_bits());
    assert_eq!(point(3.0e30, 1.0).sq().to_bits(), f32::INFINITY.to_bits());
}

#[test]
fn one_move_is_z_squared_plus_c() {
    let moved = advance(point(0.285, 0.0), point(1.0, 2.0));
    // (1 + 2i)^2 + 0.285 = -3 + 4i + 0.285
    assert_eq!(moved.x.to_bits(), (1.0f32 - 4.0f32 + 0.285f32).to_bits());
    assert_eq!(moved.y.to_bits(), 4.0f32.to_bits());
    let c = (-0.9f32, 0.27015f32);
    let (x, y) = (0.3f32, -0.7f32);
    let moved = advance(point(c.0, c.1), point(x, y));
    assert_eq!(moved.x.to_bits(), (x * x - y * y + c.0).to_bits());
    assert_eq!(moved.y.to_bits(), (2.0 * x * y + c.1).to_bits());
}

#[test]
fn a_point_outside_the_disk_escapes_at_once() {
    let c = point(0.285, 0.0);
    assert_eq!(escape_time(c, point(3.0, 0.0), MAX_ITERATIONS), EscapeResult::Escaped(0));
    assert_eq!(escape_time(c, point(0.0, -2.5), MAX_ITERATIONS), EscapeResult::Escaped(0));
    assert_eq!(escape_time(c, point(1.5, 1.5), 1), EscapeResult::Escaped(0));
}

#[test]
fn a_point_on_the_circle_has_not_escaped_yet() {
    // 2^2 is four, not more than four; one move takes it to 4
    let c = point(0.0, 0.0);
    assert_eq!(escape_time(c, point(2.0, 0.0), MAX_ITERATIONS), EscapeResult::Escaped(1));
    assert_eq!(escape_time(c, point(0.0, 2.0), MAX_ITERATIONS), EscapeResult::Escaped(1));
    // the next number after 2 is outside
    let above = Complex::new(Binary32::from_bits(0x4000_0001), number(0.0));
    assert_eq!(escape_time(c, above, MAX_ITERATIONS), EscapeResult::Escaped(0));
}

#[test]
fn a_point_that_stays_inside_is_bounded() {
    assert_eq!(escape_time(point(0.0, 0.0), point(0.0, 0.0), MAX_ITERATIONS), EscapeResult::Bounded);
    assert_eq!(escape_time(point(0.0, 0.0), point(0.5, 0.5), MAX_ITERATIONS), EscapeResult::Bounded);
    assert_eq!(escape_time(point(-1.0, 0.0), point(0.0, 0.0), MAX_ITERATIONS), EscapeResult::Bounded);
    for target in 0..MAX_ITERATIONS {
        assert!(!verify(point(0.0, 0.0), point(0.5, 0.5), target));
    }
}

#[test]
fn the_cap_bounds_the_count() {
    let c = point(0.0, 0.0);
    let p = point(2.0, 0.0);
    assert_eq!(escape_time(c, p, 0), EscapeResult::Bounded);
    assert_eq!(escape_time(c, p, 1), EscapeResult::Bounded);
    assert_eq!(escape_time(c, p, 2), EscapeResult::Escaped(1));
    assert_eq!(escape_time(c, point(3.0, 0.0), 0), EscapeResult::Bounded);
    // 1.1 escapes after four moves: 1.1, 1.21, 1.4641, 2.1436, ...
    assert_eq!(escape_time(c, point(1.1, 0.0), MAX_ITERATIONS), reference((0.0, 0.0), (1.1, 0.0), 200));
    assert_eq!(escape_time(c, point(1.1, 0.0), 3), EscapeResult::Bounded);
    assert_eq!(escape_time(c, point(1.1, 0.0), 4), EscapeResult::Escaped(3));
}

#[test]
fn escape_time_agrees_with_hardware_on_a_grid() {
    for &c in &[(0.285f32, 0.0f32), (-0.9, 0.27015), (0.0, 0.0), (-0.4, 0.6), (0.355, 0.355)] {
        for &p in &grid(41) {
            let ours = escape_time(point(c.0, c.1), point(p.0, p.1), MAX_ITERATIONS);
            assert_eq!(ours, reference(c, p, MAX_ITERATIONS), "c = {:?}, p = {:?}", c, p);
        }
    }
}

#[test]
fn escape_time_agrees_with_hardware_under_small_caps() {
    for cap in [0u32, 1, 2, 5, 17] {
        for &p in &grid(23) {
            let ours = escape_time(point(0.285, 0.0), point(p.0, p.1), cap);
            assert_eq!(ours, reference((0.285, 0.0), p, cap), "cap = {}, p = {:?}", cap, p);
        }
    }
}

#[test]
fn escape_time_agrees_with_hardware_on_huge_and_tiny_numbers() {
    let extremes = [f32::MAX, -f32::MAX, f32::MIN_POSITIVE, 1.0e-45, -1.0e-45, 1.0e30, -1.0e20, 0.0, -0.0, 1.9999999, 2.0000002];
    for &cx in &extremes {
        for &px in &extremes {
            for &py in &extremes {
                let ours = escape_time(point(cx, 0.25), point(px, py), MAX_ITERATIONS);
                assert_eq!(ours, reference((cx, 0.25), (px, py), MAX_ITERATIONS), "c = {}, p = ({}, {})", cx, px, py);
            }
        }
    }
}

#[test]
fn a_nan_never_escapes() {
    let c = point(0.285, 0.0);
    assert_eq!(escape_time(c, point(f32::NAN, 0.0), MAX_ITERATIONS), EscapeResult::Bounded);
    assert_eq!(escape_time(point(f32::NAN, 0.0), point(0.1, 0.1), MAX_ITERATIONS), EscapeResult::Bounded);
    assert_eq!(escape_time(c, point(f32::INFINITY, 0.0), MAX_ITERATIONS), EscapeResult::Escaped(0));
}

#[test]
fn the_oracle_is_deterministic() {
    for &p in &grid(9) {
        let first = escape_time(point(0.285, 0.0), point(p.0, p.1), MAX_ITERATIONS);
        let second = escape_time(point(0.285, 0.0), point(p.0, p.1), MAX_ITERATIONS);
        assert_eq!(first, second);
    }
}

#[test]
fn verify_accepts_the_escape_time_and_nothing_else() {
    let c = point(0.285, 0.0);
    for &p in &grid(11) {
        let time = escape_time(c, point(p.0, p.1), MAX_ITERATIONS);
        for target in 0..MAX_ITERATIONS {
            assert_eq!(verify(c, point(p.0, p.1), target), time == EscapeResult::Escaped(target));
        }
    }
}

#[test]
fn a_point_outside_the_disk_cannot_be_passed_off_for_a_later_target() {
    let c = point(0.285, 0.0);
    assert!(verify(c, point(3.0, 0.0), 0));
    for target in 1..MAX_ITERATIONS {
        assert!(!verify(c, point(3.0, 0.0), target));
    }
}

#[test]
fn an_empty_pool_has_no_solution() {
    assert!(find_point(point(0.285, 0.0), &[], 31).is_none());
    assert!(find_point(point(0.285, 0.0), &[], 0).is_none());
}

#[test]
fn a_pool_without_a_match_has_no_solution() {
    let pool = as_points(&[(3.0, 0.0), (0.0, 0.0), (2.5, 2.5)]);
    // the pool offers escape times 0 and, for the origin, whatever the set gives
    let origin = escape_time(point(0.0, 0.0), point(0.0, 0.0), MAX_ITERATIONS);
    assert_eq!(origin, EscapeResult::Bounded);
    assert!(find_point(point(0.0, 0.0), &pool, 7).is_none());
    assert!(find_point(point(0.0, 0.0), &pool, MAX_ITERATIONS).is_none());
    assert!(find_point(point(0.0, 0.0), &pool, u32::MAX).is_none());
}

#[test]
fn the_first_match_in_the_pool_wins() {
    let c = point(0.0, 0.0);
    // both 2 and 2i escape after one move; 3 escapes at once
    let pool = as_points(&[(3.0, 0.0), (0.0, 2.0), (2.0, 0.0)]);
    let found = find_point(c, &pool, 1).unwrap();
    assert_eq!((found.x.to_bits(), found.y.to_bits()), (0.0f32.to_bits(), 2.0f32.to_bits()));
    let found = find_point(c, &pool, 0).unwrap();
    assert_eq!((found.x.to_bits(), found.y.to_bits()), (3.0f32.to_bits(), 0.0f32.to_bits()));
    let swapped = as_points(&[(2.0, 0.0), (0.0, 2.0), (3.0, 0.0)]);
    let found = find_point(c, &swapped, 1).unwrap();
    assert_eq!((found.x.to_bits(), found.y.to_bits()), (2.0f32.to_bits(), 0.0f32.to_bits()));
}

#[test]
fn find_point_agrees_with_a_scan_on_hardware() {
    let c = (0.285f32, 0.0f32);
    let pool = grid(37);
    let points = as_points(&pool);
    for target in [0u32, 1, 2, 3, 5, 8, 13, 21, 31, 34, 55, 89, 144, 199, 200, 201] {
        let expected = pool.iter().find(|&&p| reference(c, p, MAX_ITERATIONS) == EscapeResult::Escaped(target));
        let found = find_point(point(c.0, c.1), &points, target);
        match (expected, found) {
            (Some(e), Some(f)) => {
                assert_eq!((e.0.to_bits(), e.1.to_bits()), (f.x.to_bits(), f.y.to_bits()))
            }
            (None, None) => {}
            _ => panic!("target {}: the scans disagree", target),
        }
    }
}

#[test]
fn what_mining_finds_checking_accepts() {
    let c = point(-0.9, 0.27015);
    let points = as_points(&grid(29));
    for target in 0..MAX_ITERATIONS {
        if let Some(p) = find_point(c, &points, target) {
            assert!(verify(c, p, target));
            assert_eq!(escape_time(c, p, MAX_ITERATIONS), EscapeResult::Escaped(target));
        }
    }
}

#[test]
fn mining_a_seeded_pool_end_to_end() {
    let c = (0.285f32, 0.0f32);
    let target: u32 = 31;
    for seed in 0..20u64 {
        let pool = seeded_pool(seed, 2.0, 500);
        assert_eq!(pool.len(), 500);
        assert!(pool.iter().all(|p| -2.0 <= p.0 && p.0 < 2.0 && -2.0 <= p.1 && p.1 < 2.0));
        let points = as_points(&pool);
        let expected = pool.iter().position(|&p| reference(c, p, MAX_ITERATIONS) == EscapeResult::Escaped(target));
        match find_point(point(c.0, c.1), &points, target) {
            Some(p) => {
                let k = expected.expect("the scan on hardware found nothing");
                assert_eq!((p.x.to_bits(), p.y.to_bits()), (pool[k].0.to_bits(), pool[k].1.to_bits()));
                assert_eq!(escape_time(point(c.0, c.1), p, 200), EscapeResult::Escaped(31));
                assert!(verify(point(c.0, c.1), p, target));
            }
            None => {
                assert!(expected.is_none());
                assert!(points.iter().all(|&p| !verify(point(c.0, c.1), p, target)));
            }
        }
        // the same seed gives the same pool and so the same answer
        let again = find_point(point(c.0, c.1), &as_points(&seeded_pool(seed, 2.0, 500)), target);
        assert_eq!(
            again.map(|p| (p.x.to_bits(), p.y.to_bits())),
            find_point(point(c.0, c.1), &points, target).map(|p| (p.x.to_bits(), p.y.to_bits()))
        );
    }
}
