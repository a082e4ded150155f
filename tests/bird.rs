use vicsek::bird::{Bird, DegenerateHeading};
use vicsek::fixed::{isqrt, ONE};

const TORUS: u64 = 1 << 32;

#[test]
fn isqrt_exact_values() {
    assert_eq!(isqrt(0), 0);
    assert_eq!(isqrt(1), 1);
    assert_eq!(isqrt(15), 3);
    assert_eq!(isqrt(16), 4);
    assert_eq!(isqrt(2 * (1u128 << 40)), 1_482_910);
    assert_eq!(isqrt(u128::MAX), u64::MAX);
}

#[test]
fn dist2_measures_to_nearest_image() {
    let a = Bird::new([429_496_730, 2_147_483_648], [ONE, 0], 0);
    let b = Bird::new([3_865_470_566, 2_147_483_648], [ONE, 0], 0);
    assert_eq!(a.dist2(&b), 858_993_460u64 * 858_993_460u64);
    assert_eq!(b.dist2(&a), a.dist2(&b));
}

#[test]
fn dist2_is_symmetric_on_both_axes() {
    let pts: [[u32; 2]; 4] = [[0, 0], [u32::MAX, 7], [0x8000_0000, 0x7fff_ffff], [123_456_789, 3_999_999_999]];
    for p in pts.iter() {
        for q in pts.iter() {
            let a = Bird::new(*p, [0, 0], 0);
            let b = Bird::new(*q, [0, 0], 0);
            assert_eq!(a.dist2(&b), b.dist2(&a));
        }
    }
    let a = Bird::new([0, 0], [0, 0], 0);
    let b = Bird::new([0x8000_0000, 0x8000_0000], [0, 0], 0);
    assert_eq!(a.dist2(&b), 2 * (1u64 << 62));
}

#[test]
fn update_direction_takes_mean_heading_plus_noise() {
    let mut b = Bird::new([5, 6], [0, 0], 9);
    let others = [Bird::new([0, 0], [ONE, 0], 1), Bird::new([0, 0], [0, ONE], 1)];
    assert_eq!(b.update_direction(&others, [0, 0]), Ok(()));
    assert_eq!(b.v, [741_455, 741_455]);
    assert_eq!(b.update_direction(&others, [5, -7]), Ok(()));
    assert_eq!(b.v, [741_460, 741_448]);
    assert_eq!(b.r, [5, 6]);
    assert_eq!(b.v0, 9);
}

#[test]
fn update_direction_normalises_long_sums() {
    let mut b = Bird::new([0, 0], [0, 0], 0);
    let same = [Bird::new([0, 0], [3 * ONE, 0], 1); 5];
    assert_eq!(b.update_direction(&same, [0, 0]), Ok(()));
    assert_eq!(b.v, [ONE, 0]);
    let neg = [Bird::new([0, 0], [0, -2], 1)];
    assert_eq!(b.update_direction(&neg, [1, 1]), Ok(()));
    assert_eq!(b.v, [1, -ONE + 1]);
}

#[test]
fn update_direction_reports_cancelling_headings() {
    let mut b = Bird::new([1, 2], [17, -4], 3);
    let opposite = [Bird::new([0, 0], [ONE, 0], 1), Bird::new([0, 0], [-ONE, 0], 1)];
    assert_eq!(b.update_direction(&opposite, [100, 100]), Err(DegenerateHeading));
    assert_eq!(b.v, [17, -4]);
    assert_eq!(b.update_direction(&[], [100, 100]), Err(DegenerateHeading));
    assert_eq!(b.v, [17, -4]);
}

#[test]
fn update_r_wraps_both_ways() {
    let mut b = Bird::new([(TORUS - 10) as u32, 5], [ONE, -ONE], 100);
    b.update_r();
    assert_eq!(b.r, [90, (TORUS - 95) as u32]);
    assert_eq!(b.v, [ONE, -ONE]);
}

#[test]
fn update_r_rounds_toward_zero() {
    let mut b = Bird::new([1000, 1000], [-(ONE / 3), ONE / 3], 10);
    b.update_r();
    assert_eq!(b.r, [997, 1003]);
}

#[test]
fn update_r_with_large_heading_stays_on_torus() {
    let mut b = Bird::new([7, u32::MAX], [1i64 << 32, -(1i64 << 32)], u32::MAX);
    b.update_r();
    let d: u64 = ((1u128 << 32) * (u32::MAX as u128) / (ONE as u128)) as u64;
    assert_eq!(b.r[0] as u64, (7 + d) % TORUS);
    assert_eq!(b.r[1] as u64, ((u32::MAX as u64) + TORUS - d % TORUS) % TORUS);
}

#[test]
fn nearly_cancelling_headings_still_give_a_unit_heading() {
    let mut b = Bird::new([0, 0], [0, 0], 1);
    let pair = [Bird::new([0, 0], [ONE, 0], 1), Bird::new([0, 0], [-ONE + 1, 1], 1)];
    assert_eq!(b.update_direction(&pair, [0, 0]), Ok(()));
    assert_eq!(b.v, [741_455, 741_455]);
    let len2 = b.v[0] * b.v[0] + b.v[1] * b.v[1];
    assert!(len2 <= ONE * ONE && len2 > ONE * ONE - 4 * ONE - 2);
}

#[test]
fn averaged_heading_has_unit_length() {
    let mut b = Bird::new([0, 0], [0, 0], 1);
    let birds = [
        Bird::new([0, 0], [3 * ONE, -7], 1),
        Bird::new([0, 0], [-5, 2 * ONE + 11], 1),
        Bird::new([0, 0], [123_456, -654_321], 1),
    ];
    assert_eq!(b.update_direction(&birds, [0, 0]), Ok(()));
    let len2 = b.v[0] * b.v[0] + b.v[1] * b.v[1];
    assert!(len2 <= ONE * ONE && len2 > ONE * ONE - 4 * ONE - 2);
}
