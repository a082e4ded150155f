use vicsek::bird::{Bird, MAX_BIRDS};
use vicsek::fixed::{isqrt, ONE};
use vicsek::model::{Vicsek, DEFAULT_ETA, SPEED};
use vicsek::proximity::{ConfigError, Proximity};

const TORUS: u64 = 1 << 32;
const HALF: u32 = 0x8000_0000;

fn zero_noise(n: usize, steps: usize) -> Vec<Vec<[i32; 2]>> {
    vec![vec![[0, 0]; n]; steps]
}

fn pattern_noise(n: usize, steps: usize) -> Vec<Vec<[i32; 2]>> {
    let mut all = Vec::new();
    for s in 0..steps {
        let mut step = Vec::new();
        for i in 0..n {
            let a = ((s * 131 + i * 37) % 2001) as i32 - 1000;
            let b = ((s * 71 + i * 53) % 2001) as i32 - 1000;
            step.push([a * 50, b * 50]);
        }
        all.push(step);
    }
    all
}

fn expect_ok(n: usize, p: Proximity, seed: u64) -> Vicsek {
    match Vicsek::new(n, p, seed) {
        Ok(v) => v,
        Err(e) => panic!("refused: {:?}", e),
    }
}

/// Component `c` of `(x, y)` scaled to length ONE: the square root of
/// c² · ONE² / (x² + y²), rounded down, with the sign of `c`.
fn unit(c: i128, x: i128, y: i128) -> i64 {
    let s = (x * x + y * y) as u128;
    let t = (c * c) as u128 * ((ONE as u128) * (ONE as u128)) / s;
    let m = isqrt(t) as i64;
    if c < 0 { -m } else { m }
}

fn advanced(p: u32, h: i64, v0: u32) -> u32 {
    let q = (h.unsigned_abs() as u128) * (v0 as u128) / (ONE as u128);
    let d = (q % (TORUS as u128)) as u64;
    let shift = if h >= 0 { d } else { (TORUS - d) % TORUS };
    ((p as u64 + shift) % TORUS) as u32
}

fn ring(l: u64, a: &Bird, b: &Bird) -> u64 {
    let cell = |p: u32| (p as u64 * l) >> 32;
    let axis = |u: u64, w: u64| {
        let d = (w + l - u) % l;
        if d <= l / 2 { d } else { l - d }
    };
    let dx = axis(cell(a.r[0]), cell(b.r[0]));
    let dy = axis(cell(a.r[1]), cell(b.r[1]));
    dx.max(dy)
}

#[test]
fn new_refuses_out_of_range_parameters() {
    assert_eq!(Vicsek::new(0, Proximity::Radius(1000), 1).err(), Some(ConfigError::NoBirds));
    assert_eq!(Vicsek::new(MAX_BIRDS + 1, Proximity::Radius(1000), 1).err(), Some(ConfigError::TooManyBirds));
    assert_eq!(Vicsek::new(10, Proximity::Neighbors(0), 1).err(), Some(ConfigError::NoNeighbors));
    assert_eq!(Vicsek::new(10, Proximity::Radius(0), 1).err(), Some(ConfigError::ZeroRadius));
}

#[test]
fn new_builds_the_flock() {
    let v = expect_ok(25, Proximity::Neighbors(4), 42);
    assert_eq!(v.birds().len(), 25);
    assert_eq!(v.proximity, Proximity::Neighbors(4));
    assert_eq!(v.eta, DEFAULT_ETA);
    for b in v.birds() {
        assert_eq!(b.v0, SPEED);
        assert!(b.v[0].abs() <= ONE && b.v[1].abs() <= ONE);
        let len2 = (b.v[0] as i128).pow(2) + (b.v[1] as i128).pow(2);
        let one2 = (ONE as i128).pow(2);
        assert!(len2 <= one2 && len2 > one2 - 4 * (ONE as i128) - 2);
    }
}

#[test]
fn same_seed_same_flock_other_seed_other_flock() {
    let a = expect_ok(12, Proximity::Radius(HALF / 4), 9);
    let b = expect_ok(12, Proximity::Radius(HALF / 4), 9);
    let c = expect_ok(12, Proximity::Radius(HALF / 4), 10);
    assert_eq!(a.birds(), b.birds());
    assert_ne!(a.birds(), c.birds());
    let distinct = a.birds().iter().filter(|x| x.r != a.birds()[0].r).count();
    assert_eq!(distinct, 11);
}

#[test]
fn neighbor_count_is_k_in_ring_then_index_order() {
    let n = 60;
    let k = 7;
    let v = expect_ok(n, Proximity::Neighbors(k), 3);
    let l = isqrt(n as u128);
    let birds = v.birds().clone();
    for i in 0..n {
        let c = v.candidates(i);
        assert_eq!(c.len(), k);
        let mut all: Vec<(bool, u64, usize)> = (0..n).map(|j| (j != i, ring(l, &birds[i], &birds[j]), j)).collect();
        all.sort();
        let want: Vec<usize> = all.iter().take(k).map(|p| p.2).collect();
        assert_eq!(c, want);
    }
}

#[test]
fn a_bird_always_counts_itself_first() {
    let mut v = expect_ok(40, Proximity::Neighbors(1), 6);
    for i in 0..40 {
        assert_eq!(v.candidates(i), vec![i]);
    }
    v.proximity = Proximity::Neighbors(3);
    for i in 0..40 {
        let c = v.candidates(i);
        assert_eq!(c.len(), 3);
        assert_eq!(c[0], i);
    }
}

#[test]
fn neighbor_count_beyond_population_takes_everyone() {
    let v = expect_ok(10, Proximity::Neighbors(100), 5);
    for i in 0..10 {
        let mut c = v.candidates(i);
        c.sort();
        assert_eq!(c, (0..10).collect::<Vec<usize>>());
    }
}

#[test]
fn radius_candidates_match_brute_force() {
    let r: u32 = 858_993_459;
    let v = expect_ok(20, Proximity::Radius(r), 11);
    let birds = v.birds().clone();
    let r2 = (r as u64) * (r as u64);
    let mut total = 0;
    for i in 0..20 {
        let want: Vec<usize> = (0..20).filter(|&j| birds[i].dist2(&birds[j]) < r2).collect();
        assert!(want.contains(&i));
        total += want.len();
        assert_eq!(v.candidates(i), want);
    }
    assert!(total > 20 && total < 400);
}

#[test]
fn sweep_is_deterministic() {
    let mut a = expect_ok(30, Proximity::Neighbors(5), 77);
    let mut b = expect_ok(30, Proximity::Neighbors(5), 77);
    let noise = pattern_noise(30, 3);
    a.sweep(&noise);
    b.sweep(&noise);
    assert_eq!(a.birds(), b.birds());
    let more = pattern_noise(30, 2);
    a.sweep(&more);
    b.sweep(&more);
    assert_eq!(a.birds(), b.birds());
    a.proximity = Proximity::Radius(HALF / 8);
    b.proximity = Proximity::Radius(HALF / 8);
    a.sweep(&more);
    b.sweep(&more);
    assert_eq!(a.birds(), b.birds());
}

#[test]
fn sweep_of_no_steps_changes_nothing() {
    let mut a = expect_ok(8, Proximity::Neighbors(3), 2);
    let before = a.birds().clone();
    a.sweep(&Vec::new());
    assert_eq!(a.birds(), &before);
}

#[test]
fn lone_bird_keeps_its_direction_and_moves() {
    let mut a = expect_ok(1, Proximity::Radius(1000), 4);
    let b = a.birds()[0];
    a.sweep(&vec![vec![[3, -2]]]);
    let h = [unit(b.v[0] as i128, b.v[0] as i128, b.v[1] as i128) + 3, unit(b.v[1] as i128, b.v[0] as i128, b.v[1] as i128) - 2];
    let after = a.birds()[0];
    assert_eq!(after.v, h);
    assert_eq!(after.r, [advanced(b.r[0], h[0], SPEED), advanced(b.r[1], h[1], SPEED)]);
}

#[test]
fn radius_half_aligns_each_bird_with_birds_in_reach() {
    let mut v = expect_ok(4, Proximity::Radius(HALF), 1);
    v.eta = 0;
    let before = v.birds().clone();
    let r2 = (HALF as u64) * (HALF as u64);
    v.sweep(&zero_noise(4, 1));
    for i in 0..4 {
        let (mut sx, mut sy) = (0i128, 0i128);
        for j in 0..4 {
            if before[i].dist2(&before[j]) < r2 {
                sx += before[j].v[0] as i128;
                sy += before[j].v[1] as i128;
            }
        }
        let h = [unit(sx, sx, sy), unit(sy, sx, sy)];
        let b = v.birds()[i];
        assert_eq!(b.v, h);
        assert_eq!(b.r, [advanced(before[i].r[0], h[0], SPEED), advanced(before[i].r[1], h[1], SPEED)]);
    }
}

#[test]
fn resize_keeps_existing_birds() {
    let mut v = expect_ok(10, Proximity::Neighbors(3), 8);
    let ten = v.birds().clone();
    assert_eq!(v.set_num_birds(15), Ok(()));
    assert_eq!(v.birds().len(), 15);
    assert_eq!(&v.birds()[..10], &ten[..]);
    for b in &v.birds()[10..] {
        assert_eq!(b.v0, SPEED);
    }
    let fifteen = v.birds().clone();
    assert_eq!(v.set_num_birds(10), Ok(()));
    assert_eq!(v.birds(), &fifteen[..10].to_vec());
    assert_eq!(v.set_num_birds(0), Err(ConfigError::NoBirds));
    assert_eq!(v.set_num_birds(MAX_BIRDS + 1), Err(ConfigError::TooManyBirds));
    assert_eq!(v.birds().len(), 10);
    v.sweep(&pattern_noise(10, 2));
    assert_eq!(v.birds().len(), 10);
}

#[test]
fn resize_then_sweep_uses_the_new_grid() {
    let mut v = expect_ok(4, Proximity::Neighbors(4), 21);
    assert_eq!(v.set_num_birds(30), Ok(()));
    for i in 0..30 {
        assert_eq!(v.candidates(i).len(), 4);
    }
    v.sweep(&pattern_noise(30, 1));
    assert_eq!(v.set_num_birds(9), Ok(()));
    let l = isqrt(9);
    let birds = v.birds().clone();
    for i in 0..9 {
        let mut all: Vec<(bool, u64, usize)> = (0..9).map(|j| (j != i, ring(l, &birds[i], &birds[j]), j)).collect();
        all.sort();
        let want: Vec<usize> = all.iter().take(4).map(|p| p.2).collect();
        assert_eq!(v.candidates(i), want);
    }
}

#[test]
fn radius_covering_torus_aligns_whole_flock() {
    let r: u32 = 3_037_000_500;
    let mut v = expect_ok(4, Proximity::Radius(r), 1);
    v.eta = 0;
    let before = v.birds().clone();
    let (mut sx, mut sy) = (0i128, 0i128);
    for b in &before {
        sx += b.v[0] as i128;
        sy += b.v[1] as i128;
    }
    let h = [unit(sx, sx, sy), unit(sy, sx, sy)];
    v.sweep(&zero_noise(4, 1));
    for i in 0..4 {
        let b = v.birds()[i];
        assert_eq!(b.v, h);
        assert_eq!(b.r, [advanced(before[i].r[0], h[0], SPEED), advanced(before[i].r[1], h[1], SPEED)]);
    }
}

#[test]
fn setters_check_the_rule_and_keep_the_flock() {
    let mut v = expect_ok(6, Proximity::Radius(1000), 3);
    let before = v.birds().clone();
    assert_eq!(v.set_proximity(Proximity::Neighbors(0)), Err(ConfigError::NoNeighbors));
    assert_eq!(v.proximity, Proximity::Radius(1000));
    assert_eq!(v.set_proximity(Proximity::Radius(0)), Err(ConfigError::ZeroRadius));
    assert_eq!(v.proximity, Proximity::Radius(1000));
    assert_eq!(v.set_proximity(Proximity::Neighbors(2)), Ok(()));
    assert_eq!(v.proximity, Proximity::Neighbors(2));
    v.set_eta(7);
    assert_eq!(v.eta, 7);
    assert_eq!(v.birds(), &before);
}

#[test]
fn resize_to_same_size_leaves_the_stream_alone() {
    let mut a = expect_ok(9, Proximity::Neighbors(3), 13);
    let mut b = expect_ok(9, Proximity::Neighbors(3), 13);
    assert_eq!(a.set_num_birds(9), Ok(()));
    assert_eq!(a.birds(), b.birds());
    assert_eq!(a.set_num_birds(12), Ok(()));
    assert_eq!(b.set_num_birds(12), Ok(()));
    assert_eq!(a.birds(), b.birds());
    assert_eq!(a.draw_u64(), b.draw_u64());
}

#[test]
fn same_seed_same_stream_after_growth() {
    let mut a = expect_ok(5, Proximity::Radius(1000), 99);
    let mut b = expect_ok(5, Proximity::Radius(1000), 99);
    assert_eq!(a.draw_u64(), b.draw_u64());
    assert_eq!(a.set_num_birds(8), Ok(()));
    assert_eq!(b.set_num_birds(8), Ok(()));
    assert_eq!(a.birds(), b.birds());
    let mut c = expect_ok(5, Proximity::Radius(1000), 99);
    assert_eq!(c.set_num_birds(8), Ok(()));
    assert_ne!(c.birds()[5..], a.birds()[5..]);
    assert_eq!(c.birds()[..5], a.birds()[..5]);
}
