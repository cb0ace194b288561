use imu_cal::quality::{ideal_direction_of, sphere_region, Quality, WORST_WOBBLE};
use imu_cal::vector::Vec3;

fn v(x: i64, y: i64, z: i64) -> Vec3 {
    Vec3::new(x, y, z)
}

#[test]
fn empty_scorer_reports_worst_wobble() {
    let q = Quality::new();
    assert_eq!(q.wobble_error(), 100_000_000);
    assert_eq!(q.calc_wobble_error(), WORST_WOBBLE);
    assert_eq!(q.surface_gap_error(), 100_000_000);
    assert_eq!(q.magnitude_variance_error(), 0);
    assert_eq!(Quality::default().wobble_error(), 100_000_000);
}

#[test]
fn polar_caps_and_bands() {
    assert_eq!(sphere_region(&v(0, 0, 1_000_000)), 0);
    assert_eq!(sphere_region(&v(0, 0, -1_000_000)), 99);
    assert_eq!(sphere_region(&v(0, 0, 0)), 0);
    // sin of the cap limit is 0.98: z/|p| = 0.98 exactly is not in the cap
    assert_eq!(sphere_region(&v(-199_000, 0, 980_000)), 15);
    assert_eq!(sphere_region(&v(-198_000, 0, 980_000)), 0);
    assert_eq!(sphere_region(&v(-198_000, 0, -980_000)), 99);
    // tropic and temperate bands either side of the equator
    assert_eq!(sphere_region(&v(-1_000_000, 0, 0)), 49);
    assert_eq!(sphere_region(&v(1_000_000, 1, 0)), 33);
    assert_eq!(sphere_region(&v(1_000_000, -1, -1)), 66);
    assert_eq!(sphere_region(&v(1_000_000, -1, 1_000_000)), 8);
    assert_eq!(sphere_region(&v(1_000_000, -1, -1_000_000)), 91);
}

#[test]
fn longitude_sectors_follow_the_angle_of_the_reversed_direction() {
    // (x, y) = (-1, 0) has longitude atan2(0, -1) + π = 2π: the last sector of each band
    assert_eq!(sphere_region(&v(-1_000_000, 0, 10)), 49);
    assert_eq!(sphere_region(&v(-5, 0, -3)), 83);
    assert_eq!(sphere_region(&v(-1_000_000, 0, 1_000_000)), 15);
    assert_eq!(sphere_region(&v(-1_000_000, 0, -1_000_000)), 98);
    // just past longitude 0
    assert_eq!(sphere_region(&v(-1_000_000, -1, 10)), 16);
    assert_eq!(sphere_region(&v(-1_000_000, 1, 10)), 49);
    assert_eq!(sphere_region(&v(-1_000_000, 1, 2_000_000)), 15);
    // (0, -1): longitude π/2, sector 8 of 34
    assert_eq!(sphere_region(&v(0, -1_000_000, 0)), 24);
    // (3, 4): longitude π + atan(4/3) = 4.0689 rad, sector 22 of 34
    assert_eq!(sphere_region(&v(3_000_000, 4_000_000, 0)), 38);
    assert_eq!(sphere_region(&v(3_000_000, 4_000_000, -1)), 72);
}

#[test]
fn ideal_directions_are_region_centres() {
    assert_eq!(ideal_direction_of(0), v(0, 0, 1_000_000));
    assert_eq!(ideal_direction_of(99), v(0, 0, -1_000_000));
    assert_eq!(ideal_direction_of(38), v(490_065, 791_482, 365_230));
    let upper = ideal_direction_of(8);
    let lower = ideal_direction_of(91);
    assert_eq!((upper.x, upper.y, upper.z), (lower.x, lower.y, -lower.z));
}

#[test]
fn one_sample_on_the_pole() {
    let mut q = Quality::new();
    q.update(v(0, 0, 1_000_000));
    assert_eq!(q.sample_count(), 1);
    assert_eq!(q.surface_gap_error(), 99_200_000);
    assert_eq!(q.magnitude_variance_error(), 0);
    assert_eq!(q.wobble_error(), 0);
}

#[test]
fn two_samples_in_one_region() {
    let mut q = Quality::new();
    q.update(v(3_000_000, 4_000_000, 0));
    q.update(v(6_000_000, 8_000_000, 0));
    assert_eq!(q.surface_gap_error(), 99_010_000);
    // magnitudes 5 and 10: stddev 2.5 over mean 7.5
    assert_eq!(q.magnitude_variance_error(), 33_333_333);
    assert_eq!(q.wobble_error(), 38_151_173);
    assert_eq!(q.calc_surface_gap_error(), q.surface_gap_error());
    assert_eq!(q.calc_magnitude_variance_error(), q.magnitude_variance_error());
    assert_eq!(q.calc_wobble_error(), q.wobble_error());
}

#[test]
fn gap_error_never_increases() {
    let mut q = Quality::new();
    let mut last = q.surface_gap_error();
    let mut region_samples = 0;
    for i in 0..400i64 {
        let p = v((i * 7_919) % 2_001 - 1_000, (i * 104_729) % 1_999 - 999, (i * 31) % 401 - 200);
        q.update(p);
        let gap = q.surface_gap_error();
        assert!(gap <= last);
        last = gap;
        region_samples += 1;
    }
    assert_eq!(q.sample_count(), region_samples);
    assert!(last < 100_000_000);
}

#[test]
fn three_samples_in_every_region_leave_no_gap() {
    let mut q = Quality::new();
    for r in 0..100usize {
        let d = ideal_direction_of(r);
        assert_eq!(sphere_region(&d), r);
        for _ in 0..3 {
            q.update(d);
        }
    }
    assert_eq!(q.surface_gap_error(), 0);
    assert!(q.wobble_error() < 1_000);
    q.reset();
    assert_eq!(q.sample_count(), 0);
    assert_eq!(q.surface_gap_error(), 100_000_000);
    assert_eq!(q.wobble_error(), 100_000_000);
}
