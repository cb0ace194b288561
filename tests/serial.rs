use imu_cal::provider::{ImuData, MagData};
use imu_cal::rate::MessageRate;
use imu_cal::serial::{find_line_end, parse_line, Reading};
use imu_cal::vector::Vec3;

fn v(x: i64, y: i64, z: i64) -> Vec3 {
    Vec3::new(x, y, z)
}

#[test]
fn imu_line_puts_gyroscope_first() {
    let r = parse_line(b"imu 0.001 -0.002 0 9.80665 -0.5 12\n");
    assert_eq!(
        r,
        Some(Reading::Imu(ImuData {
            ang_vel: v(1_000, -2_000, 0),
            lin_acc: v(9_806_650, -500_000, 12_000_000),
        }))
    );
}

#[test]
fn mag_line() {
    let r = parse_line(b"mag 33.1 98.3 -571.2\n");
    assert_eq!(
        r,
        Some(Reading::Mag(MagData { field: v(33_100_000, 98_300_000, -571_200_000) }))
    );
}

fn mag(x: &str) -> Option<i64> {
    match parse_line(format!("mag {x} 0 0\n").as_bytes()) {
        Some(Reading::Mag(m)) => Some(m.field.x),
        _ => None,
    }
}

#[test]
fn numbers_round_to_the_nearest_micro_unit() {
    assert_eq!(mag("1.1234567"), Some(1_123_457));
    assert_eq!(mag("1.1234564"), Some(1_123_456));
    assert_eq!(mag("-0.0000019"), Some(-2));
    assert_eq!(mag("0.0000005"), Some(1));
    assert_eq!(mag("-0.0000005"), Some(-1));
    assert_eq!(mag("0.0000004999"), Some(0));
}

#[test]
fn numbers_take_signs_points_and_exponents() {
    assert_eq!(mag("+1"), Some(1_000_000));
    assert_eq!(mag(".5"), Some(500_000));
    assert_eq!(mag("-.5"), Some(-500_000));
    assert_eq!(mag("5."), Some(5_000_000));
    assert_eq!(mag("1e-3"), Some(1_000));
    assert_eq!(mag("1E2"), Some(100_000_000));
    assert_eq!(mag("2.5e+1"), Some(25_000_000));
    assert_eq!(mag("-7.5e-7"), Some(-1));
    assert_eq!(mag("1e-40"), Some(0));
    assert_eq!(mag("0e999"), Some(0));
    assert_eq!(mag("1.099511627776e6"), Some(1_099_511_627_776));
}

#[test]
fn malformed_numbers_are_rejected() {
    for x in ["", ".", "-", "+", "e5", "1e", "1e+", "1.2.3", "1e1234", "inf", "NaN", "1x", "--1", "1e2.5"] {
        assert_eq!(mag(x), None, "{x:?}");
    }
    // more than thirty mantissa digits, leading zeros included
    assert_eq!(mag("0.0000000000000000000000000000001"), None);
    assert_eq!(mag("0.00000000000000000000000000001"), Some(0));
    assert_eq!(mag("00000000000000000000000000001.5"), Some(1_500_000));
}

#[test]
fn malformed_lines_are_ignored() {
    for line in [
        &b"mag 1 2 3"[..],
        b"mag 1 2\n",
        b"mag 1 2 3 4\n",
        b"mag  1 2 3\n",
        b"mag 1 2 x\n",
        b"mag 1 2 -\n",
        b"imu 1 2 3\n",
        b"gyr 1 2 3\n",
        b"\n",
        b"",
        b"mag 1 2 3 \n",
    ] {
        assert_eq!(parse_line(line), None, "{:?}", String::from_utf8_lossy(line));
    }
}

#[test]
fn values_beyond_the_component_limit_are_rejected() {
    assert_eq!(
        parse_line(b"mag 1099511.627776 0 0\n"),
        Some(Reading::Mag(MagData { field: v(1_099_511_627_776, 0, 0) }))
    );
    assert_eq!(parse_line(b"mag 1099511.627777 0 0\n"), None);
    assert_eq!(parse_line(b"mag 1099511.6277765 0 0\n"), None);
    assert_eq!(mag("1099511.6277764"), Some(1_099_511_627_776));
    assert_eq!(mag("2e6"), None);
    assert_eq!(parse_line(b"mag 0 -99999999999999999999 0\n"), None);
}

#[test]
fn line_end_includes_the_newline() {
    assert_eq!(find_line_end(b"mag 1 2 3\nimu"), Some(10));
    assert_eq!(find_line_end(b"\n"), Some(1));
    assert_eq!(find_line_end(b"partial"), None);
    assert_eq!(find_line_end(b""), None);
}

#[test]
fn rate_is_smoothed_per_interval() {
    let mut r = MessageRate::new(0);
    assert_eq!(r.hz(0), None);
    for t in 0..10 {
        r.received(t * 100);
    }
    // the tenth message at 900 ms still belongs to the first interval
    assert_eq!(r.message_count, 10);
    r.received(1_001);
    // 0.4·0 + 0.6·11 Hz
    assert_eq!(r.avg_rate_mhz, 6_600);
    assert_eq!(r.message_count, 0);
    assert_eq!(r.hz(1_500), Some(6_600));
    assert_eq!(r.hz(4_002), None);
    r.received(2_500);
    assert_eq!(r.avg_rate_mhz, 4 * 6_600 / 10 + 600);
}
