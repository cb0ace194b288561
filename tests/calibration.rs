use imu_cal::cal::{acc_offset_scale, gyro_offset, Cal, CalData, CalError, Shortfall, G0};
use imu_cal::vector::{Mat3, Vec3};

fn v(x: i64, y: i64, z: i64) -> Vec3 {
    Vec3::new(x, y, z)
}

fn identity() -> Mat3 {
    Mat3 {
        r0: v(1_000_000, 0, 0),
        r1: v(0, 1_000_000, 0),
        r2: v(0, 0, 1_000_000),
    }
}

/// Six static orientations, `n` samples each, every reading `g` on its axis
/// shifted by `noise(i)` and zero elsewhere.
fn six_orientations(g: i64, bias: i64, n: usize, noise: fn(usize) -> i64) -> Vec<Vec3> {
    let mut out = Vec::new();
    for axis in 0..3 {
        for sign in [1i64, -1] {
            for i in 0..n {
                let value = sign * g - bias + noise(i);
                let mut c = [-bias, -bias, -bias];
                c[axis] = value;
                out.push(v(c[0], c[1], c[2]));
            }
        }
    }
    out
}

fn mag_ring(n: usize) -> Vec<Vec3> {
    (0..n).map(|i| v(i as i64 * 1000, 500_000, -(i as i64) * 7)).collect()
}

#[test]
fn gyro_offset_of_constant_samples_is_the_sample() {
    let s = vec![v(12_345, -678, 90_001); 7];
    assert_eq!(gyro_offset(&s), Ok(v(12_345, -678, 90_001)));
}

#[test]
fn gyro_offset_is_the_rounded_mean() {
    let s = vec![v(1, -1, 10), v(2, 0, 20), v(4, -1, 32)];
    // means: 7/3, -2/3, 62/3
    assert_eq!(gyro_offset(&s), Ok(v(2, -1, 21)));
    // halves round upward: 3/2 and -3/2
    let s = vec![v(1, -1, 0), v(2, -2, 0)];
    assert_eq!(gyro_offset(&s), Ok(v(2, -1, 0)));
}

#[test]
fn gyro_offset_of_nothing_is_insufficient_data() {
    assert_eq!(
        gyro_offset(&Vec::new()),
        Err(CalError::InsufficientData(Shortfall::GyroSamples))
    );
}

#[test]
fn accelerometer_without_bias_gives_unit_scale() {
    let s = six_orientations(G0, 0, 20, |_| 0);
    let (offset, scale) = acc_offset_scale(&s).unwrap();
    assert_eq!(offset, v(0, 0, 0));
    assert_eq!(scale, v(1_000_000, 1_000_000, 1_000_000));
}

#[test]
fn accelerometer_tight_clusters_recover_identity_within_a_millionth() {
    // 20 samples per orientation around ±g0, symmetric noise of a few micro-units
    let s = six_orientations(G0, 0, 20, |i| (i as i64 % 5) - 2);
    let (offset, scale) = acc_offset_scale(&s).unwrap();
    for c in [offset.x, offset.y, offset.z] {
        assert!(c.abs() <= 1, "offset {c}");
    }
    for c in [scale.x, scale.y, scale.z] {
        assert!((c - 1_000_000).abs() <= 1, "scale {c}");
    }
}

#[test]
fn accelerometer_bias_and_scale_follow_the_lobe_formulas() {
    // raw = true / k - b with k = 0.5 and b = 0.1 m/s²: lobes at ±2·g0 - b
    let b = 100_000;
    let s = six_orientations(2 * G0, b, 4, |_| 0);
    let (offset, scale) = acc_offset_scale(&s).unwrap();
    // offset = -(s⁺ + s⁻) / 2 = b, scale = 2·g0 / (s⁺ - s⁻) = 0.5
    assert_eq!(offset, v(b, b, b));
    assert_eq!(scale, v(500_000, 500_000, 500_000));
}

#[test]
fn accelerometer_scale_is_per_axis() {
    let mut s = six_orientations(G0, 0, 3, |_| 0);
    // stretch the y axis lobes only
    for p in s.iter_mut() {
        if p.y != 0 {
            p.y *= 2;
        }
    }
    let (_, scale) = acc_offset_scale(&s).unwrap();
    assert_eq!(scale, v(1_000_000, 500_000, 1_000_000));
}

#[test]
fn accelerometer_missing_lobe_is_reported_by_axis_and_side() {
    let s: Vec<Vec3> = six_orientations(G0, 0, 2, |_| 0)
        .into_iter()
        .filter(|p| p.y >= 0)
        .collect();
    assert_eq!(
        acc_offset_scale(&s),
        Err(CalError::InsufficientData(Shortfall::AccLobe { axis: 1, positive: false }))
    );
    let s = vec![v(0, 0, 0)];
    assert_eq!(
        acc_offset_scale(&s),
        Err(CalError::InsufficientData(Shortfall::AccLobe { axis: 0, positive: true }))
    );
}

#[test]
fn lobe_threshold_is_three_quarters_of_g0() {
    // 0.75·g0 = 7_354_987.5 micro-units: 7_354_987 is outside, 7_354_988 inside
    let mut s = six_orientations(G0, 0, 1, |_| 0);
    s.retain(|p| p.x <= 0);
    s.push(v(7_354_987, 0, 0));
    assert_eq!(
        acc_offset_scale(&s),
        Err(CalError::InsufficientData(Shortfall::AccLobe { axis: 0, positive: true }))
    );
    s.push(v(7_354_988, 0, 0));
    let (offset, _) = acc_offset_scale(&s).unwrap();
    assert_eq!(offset.x, (G0 - 7_354_988) / 2);
}

#[test]
fn ellipsoid_fit_input_needs_ten_samples() {
    let mut cal = Cal::new();
    for p in mag_ring(5) {
        cal.add_mag_measurement(p);
    }
    assert_eq!(
        cal.mag_fit_points().err(),
        Some(CalError::InsufficientData(Shortfall::MagSamples))
    );
    for p in mag_ring(10).into_iter().skip(5) {
        cal.add_mag_measurement(p);
    }
    assert_eq!(cal.mag_fit_points().unwrap().len(), 10);
}

fn full_store() -> Cal {
    let mut cal = Cal::new();
    cal.add_gyro_measurement(v(10, 20, 30));
    cal.add_gyro_measurement(v(30, 40, 50));
    for p in six_orientations(G0, 0, 2, |_| 0) {
        cal.add_acc_measurement(p);
    }
    for p in mag_ring(12) {
        cal.add_mag_measurement(p);
    }
    cal
}

#[test]
fn calibrate_builds_the_model_and_keeps_it() {
    let mut cal = full_store();
    assert!(cal.gyro_measurements_with_cal().is_empty());
    let bias = v(1_000, -2_000, 3_000);
    let d = cal.calibrate(identity(), bias).unwrap();
    assert_eq!(d.gyro_offset, v(20, 30, 40));
    assert_eq!(d.acc_offset, v(0, 0, 0));
    assert_eq!(d.acc_scale, v(1_000_000, 1_000_000, 1_000_000));
    assert_eq!(d.hard_iron_bias, bias);
    assert_eq!(cal.gyro_measurements_with_cal(), vec![v(-10, -10, -10), v(10, 10, 10)]);
    assert_eq!(cal.acc_measurements_with_cal().len(), 12);
    assert_eq!(cal.mag_measurements_with_cal()[0], v(-1_000, 502_000, -3_000));
}

#[test]
fn calibrate_reports_each_missing_input_in_order() {
    let mut cal = Cal::new();
    let r = cal.calibrate(identity(), v(0, 0, 0));
    assert_eq!(r, Err(CalError::InsufficientData(Shortfall::GyroSamples)));
    cal.add_gyro_measurement(v(1, 1, 1));
    let r = cal.calibrate(identity(), v(0, 0, 0));
    assert_eq!(
        r,
        Err(CalError::InsufficientData(Shortfall::AccLobe { axis: 0, positive: true }))
    );
    for p in six_orientations(G0, 0, 1, |_| 0) {
        cal.add_acc_measurement(p);
    }
    for p in mag_ring(5) {
        cal.add_mag_measurement(p);
    }
    let r = cal.calibrate(identity(), v(0, 0, 0));
    assert_eq!(r, Err(CalError::InsufficientData(Shortfall::MagSamples)));
    assert!(cal.mag_measurements_with_cal().is_empty());
}

#[test]
fn calibrate_rejects_out_of_range_magnetometer_parameters() {
    let mut cal = full_store();
    let mut m = identity();
    m.r1.z = 2_000_000_000;
    assert_eq!(cal.calibrate(m, v(0, 0, 0)), Err(CalError::OutOfRange));
    assert_eq!(
        cal.calibrate(identity(), v(0, i64::MAX, 0)),
        Err(CalError::OutOfRange)
    );
    assert!(cal.gyro_measurements_with_cal().is_empty());
}

#[test]
fn failed_calibration_keeps_the_previous_model() {
    let mut cal = full_store();
    let first = cal.calibrate(identity(), v(0, 0, 0)).unwrap();
    cal.clear_gyro_measurements();
    assert!(cal.calibrate(identity(), v(5, 5, 5)).is_err());
    assert_eq!(cal.gyro_measurements().len(), 0);
    assert_eq!(cal.gyro_measurements_with_cal().len(), 0);
    assert_eq!(cal.acc_measurements_with_cal()[0], first.apply_acc_cal(&cal.acc_measurements()[0]));
}

#[test]
fn corrections_follow_the_model_formulas() {
    let d = CalData {
        gyro_offset: v(5, -5, 0),
        acc_offset: v(1_000, 0, -1_000),
        acc_scale: v(1_500_000, 1_000_000, 500_000),
        soft_iron_transf: Mat3 {
            r0: v(2_000_000, 0, 0),
            r1: v(0, 500_000, 0),
            r2: v(1_000_000, 0, 1_000_000),
        },
        hard_iron_bias: v(10, 20, 30),
    };
    assert_eq!(d.apply_gyro_cal(&v(0, 0, 0)), v(-5, 5, 0));
    // (raw + offset) · scale, rounded down
    assert_eq!(d.apply_acc_cal(&v(999, 7, 1_003)), v(2_998, 7, 1));
    assert_eq!(d.apply_acc_cal(&v(-1_001, 0, 0)), v(-2, 0, -500));
    // soft_iron · (raw - bias), rounded down
    assert_eq!(d.apply_mag_cal(&v(11, 23, 29)), v(2, 1, 0));
    assert_eq!(d.apply_mag_cal(&v(10, 19, 30)), v(0, -1, 0));
}

#[test]
fn stillness_gate_accepts_samples_close_to_the_moving_average() {
    let mut cal = Cal::new();
    // average moves to 0.02·sample: a zero sample stays at distance 0
    cal.add_gyro_measurement_still(v(0, 0, 0));
    assert_eq!(cal.gyro_measurements().len(), 1);
    // a jump of 1 rad/s is far from the average and is rejected
    cal.add_gyro_measurement_still(v(1_000_000, 0, 0));
    assert_eq!(cal.gyro_measurements().len(), 1);
    // a value within 10⁻³ rad/s of the new average (20_000) is accepted
    cal.add_gyro_measurement_still(v(20_500, 0, 0));
    assert_eq!(cal.gyro_measurements().len(), 2);
}

#[test]
fn accelerometer_gate_uses_its_own_threshold() {
    let mut cal = Cal::new();
    // new average 0.05·9000 = 450, distance 8550 < 10⁻² m/s²
    cal.add_acc_measurement_still(v(9_000, 0, 0));
    assert_eq!(cal.acc_measurements().len(), 1);
    // average 427 + 600 = 1027, distance 11_000 - 1027 > 10_000
    cal.add_acc_measurement_still(v(12_000, 0, 0));
    assert_eq!(cal.acc_measurements().len(), 1);
    assert_eq!(cal.gyro_measurements().len(), 0);
}

#[test]
fn extend_and_clear_keep_order_per_sensor() {
    let mut cal = Cal::new();
    cal.add_acc_measurement(v(1, 1, 1));
    cal.extend_measurements(&vec![v(2, 2, 2), v(3, 3, 3)], &vec![v(4, 4, 4)], &vec![]);
    assert_eq!(cal.acc_measurements(), &vec![v(1, 1, 1), v(2, 2, 2), v(3, 3, 3)]);
    assert_eq!(cal.gyro_measurements(), &vec![v(4, 4, 4)]);
    cal.clear_accel_measurements();
    assert!(cal.acc_measurements().is_empty());
    assert_eq!(cal.gyro_measurements().len(), 1);
    cal.clear_mag_measurements();
    assert!(cal.mag_measurements().is_empty());
}

#[test]
fn six_orientation_store_calibrates_to_identity() {
    let mut cal = Cal::new();
    cal.add_gyro_measurement(v(0, 0, 0));
    for p in six_orientations(G0, 0, 20, |i| (i as i64 % 3) - 1) {
        cal.add_acc_measurement(p);
    }
    for p in mag_ring(10) {
        cal.add_mag_measurement(p);
    }
    let d = cal.calibrate(identity(), v(0, 0, 0)).unwrap();
    for c in [d.acc_offset.x, d.acc_offset.y, d.acc_offset.z] {
        assert!(c.abs() <= 1, "offset {c}");
    }
    for c in [d.acc_scale.x, d.acc_scale.y, d.acc_scale.z] {
        assert!((c - 1_000_000).abs() <= 1, "scale {c}");
    }
}

#[test]
fn biased_accelerometer_is_corrected_back_to_g0() {
    let b = -250_000;
    let s = six_orientations(G0, b, 5, |_| 0);
    let mut cal = Cal::new();
    cal.add_gyro_measurement(v(0, 0, 0));
    for p in &s {
        cal.add_acc_measurement(*p);
    }
    for p in mag_ring(10) {
        cal.add_mag_measurement(p);
    }
    let d = cal.calibrate(identity(), v(0, 0, 0)).unwrap();
    assert_eq!(d.acc_offset, v(b, b, b));
    let corrected = cal.acc_measurements_with_cal();
    assert_eq!(corrected[0], v(G0, 0, 0));
    assert_eq!(corrected[5], v(-G0, 0, 0));
}

#[test]
fn ellipsoid_fit_input_counts_distinct_samples() {
    let mut cal = Cal::new();
    for _ in 0..12 {
        cal.add_mag_measurement(v(1, 2, 3));
    }
    assert_eq!(
        cal.mag_fit_points().err(),
        Some(CalError::InsufficientData(Shortfall::MagSamples))
    );
    for p in mag_ring(8) {
        cal.add_mag_measurement(p);
    }
    // nine distinct points among twenty samples
    assert_eq!(
        cal.mag_fit_points().err(),
        Some(CalError::InsufficientData(Shortfall::MagSamples))
    );
    cal.add_gyro_measurement(v(0, 0, 0));
    for p in six_orientations(G0, 0, 1, |_| 0) {
        cal.add_acc_measurement(p);
    }
    assert_eq!(
        cal.calibrate(identity(), v(0, 0, 0)),
        Err(CalError::InsufficientData(Shortfall::MagSamples))
    );
    cal.add_mag_measurement(v(7, 7, 7));
    assert_eq!(cal.mag_fit_points().unwrap().len(), 21);
    assert!(cal.calibrate(identity(), v(0, 0, 0)).is_ok());
}
