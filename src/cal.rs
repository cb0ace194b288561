use vstd::prelude::*;

use crate::vector::{
    div_floor, div_round, div_nearest, lemma_div_between, lemma_round_between,
    lemma_round_exact, within, Mat3, Vec3, COMPONENT_LIMIT, UNIT,
};

verus! {

/// Standard gravity g₀ in micro-units of m/s² (9.80665 m/s²).
pub const G0: i64 = 9_806_650;

/// Largest magnitude of a soft-iron matrix entry, in millionths.
pub const MATRIX_LIMIT: i64 = 1_073_741_824;

/// Largest accelerometer scale factor, in millionths.
pub const SCALE_LIMIT: i64 = 2_097_152;

/// Fewest distinct magnetometer samples that can determine the ten quadric coefficients.
pub const MIN_MAG_SAMPLES: usize = 10;

/// What was missing when a calibration could not be computed.
#[derive(Debug, Clone, Copy, PartialEq, Eq, Structural)]
pub enum Shortfall {
    /// No gyroscope sample was recorded.
    GyroSamples,
    /// No accelerometer sample fell in the lobe of `axis` on the given side.
    AccLobe { axis: u8, positive: bool },
    /// Fewer distinct magnetometer samples than `MIN_MAG_SAMPLES`.
    MagSamples,
}

/// Why a calibration or fit failed.
#[derive(Debug, Clone, Copy, PartialEq, Eq, Structural)]
pub enum CalError {
    InsufficientData(Shortfall),
    /// A matrix that the ellipsoid fit has to invert is singular.
    SingularMatrix,
    /// The magnetometer samples do not span an ellipsoid.
    DegenerateGeometry,
    /// A fitted magnetometer parameter lies outside the fixed-point limits.
    OutOfRange,
}

/// Sum of component `axis` over the samples.
pub open spec fn axis_sum(s: Seq<Vec3>, axis: int) -> int
    decreases s.len(),
{
    if s.len() == 0 {
        0
    } else {
        axis_sum(s.drop_last(), axis) + s.last().comp(axis)
    }
}

/// Arithmetic mean of component `axis`, rounded to the nearest micro-unit.
pub open spec fn axis_mean(s: Seq<Vec3>, axis: int) -> int {
    div_round(axis_sum(s, axis), s.len() as int)
}

/// A reading `v` lies in the positive lobe when `v > 0.75·g₀`, in the negative
/// lobe when `v < -0.75·g₀`.
pub open spec fn in_lobe(v: int, positive: bool) -> bool {
    if positive {
        4 * v > 3 * G0
    } else {
        4 * v < -3 * G0
    }
}

/// Sum of component `axis` over the samples whose component lies in the lobe.
pub open spec fn lobe_sum(s: Seq<Vec3>, axis: int, positive: bool) -> int
    decreases s.len(),
{
    if s.len() == 0 {
        0
    } else {
        lobe_sum(s.drop_last(), axis, positive) + if in_lobe(s.last().comp(axis), positive) {
            s.last().comp(axis)
        } else {
            0
        }
    }
}

/// Number of samples whose component `axis` lies in the lobe.
pub open spec fn lobe_count(s: Seq<Vec3>, axis: int, positive: bool) -> nat
    decreases s.len(),
{
    if s.len() == 0 {
        0
    } else {
        lobe_count(s.drop_last(), axis, positive) + if in_lobe(s.last().comp(axis), positive) {
            1nat
        } else {
            0nat
        }
    }
}

/// Mean of the lobe's readings on `axis`, rounded to the nearest micro-unit.
pub open spec fn lobe_mean(s: Seq<Vec3>, axis: int, positive: bool) -> int {
    div_round(lobe_sum(s, axis, positive), lobe_count(s, axis, positive) as int)
}

/// Accelerometer offset on `axis`: `−(s⁺ + s⁻) / 2`, rounded to the nearest
/// micro-unit, so that `raw + offset` is centred between the two lobes.
pub open spec fn acc_offset_axis(s: Seq<Vec3>, axis: int) -> int {
    div_round(-(lobe_mean(s, axis, true) + lobe_mean(s, axis, false)), 2)
}

/// Accelerometer scale on `axis`, in millionths: `2·g₀ / (s⁺ − s⁻)`.
pub open spec fn acc_scale_axis(s: Seq<Vec3>, axis: int) -> int {
    (2 * G0 * UNIT) / (lobe_mean(s, axis, true) - lobe_mean(s, axis, false))
}

/// The first empty lobe, taking the axes in order and the positive side first.
pub open spec fn acc_shortfall(s: Seq<Vec3>) -> Option<Shortfall> {
    if lobe_count(s, 0, true) == 0 {
        Some(Shortfall::AccLobe { axis: 0, positive: true })
    } else if lobe_count(s, 0, false) == 0 {
        Some(Shortfall::AccLobe { axis: 0, positive: false })
    } else if lobe_count(s, 1, true) == 0 {
        Some(Shortfall::AccLobe { axis: 1, positive: true })
    } else if lobe_count(s, 1, false) == 0 {
        Some(Shortfall::AccLobe { axis: 1, positive: false })
    } else if lobe_count(s, 2, true) == 0 {
        Some(Shortfall::AccLobe { axis: 2, positive: true })
    } else if lobe_count(s, 2, false) == 0 {
        Some(Shortfall::AccLobe { axis: 2, positive: false })
    } else {
        None
    }
}

/// Every sample lies within the fixed-point limits.
pub open spec fn all_in_range(s: Seq<Vec3>) -> bool {
    forall|i: int| 0 <= i < s.len() ==> (#[trigger] s[i]).in_range()
}

/// `r` holds the three given components.
pub open spec fn vec_is(r: Vec3, x: int, y: int, z: int) -> bool {
    r.x == x && r.y == y && r.z == z
}

proof fn lemma_axis_sum_bound(s: Seq<Vec3>, axis: int)
    requires
        all_in_range(s),
    ensures
        within(axis_sum(s, axis), s.len() * COMPONENT_LIMIT),
    decreases s.len(),
{
    if s.len() > 0 {
        lemma_axis_sum_bound(s.drop_last(), axis);
        assert(s.last() == s[s.len() - 1]);
    }
}

proof fn lemma_lobe_bounds(s: Seq<Vec3>, axis: int, positive: bool)
    requires
        all_in_range(s),
    ensures
        lobe_count(s, axis, positive) <= s.len(),
        positive ==> lobe_sum(s, axis, positive) >= lobe_count(s, axis, positive) * 7354988,
        positive ==> lobe_sum(s, axis, positive) <= lobe_count(s, axis, positive)
            * COMPONENT_LIMIT,
        !positive ==> lobe_sum(s, axis, positive) <= -(lobe_count(s, axis, positive) * 7354988),
        !positive ==> lobe_sum(s, axis, positive) >= -(lobe_count(s, axis, positive)
            * COMPONENT_LIMIT),
    decreases s.len(),
{
    if s.len() > 0 {
        lemma_lobe_bounds(s.drop_last(), axis, positive);
        assert(s.last() == s[s.len() - 1]);
    }
}

/// The mean of a non-empty positive lobe exceeds `0.75·g₀` and the mean of a
/// non-empty negative lobe falls below `-0.75·g₀` (in whole micro-units); both
/// stay within the limits.
proof fn lemma_lobe_mean_bounds(s: Seq<Vec3>, axis: int)
    requires
        all_in_range(s),
        lobe_count(s, axis, true) > 0,
        lobe_count(s, axis, false) > 0,
    ensures
        lobe_mean(s, axis, true) >= 7354988,
        lobe_mean(s, axis, true) <= COMPONENT_LIMIT,
        lobe_mean(s, axis, false) <= -7354988,
        lobe_mean(s, axis, false) >= -COMPONENT_LIMIT,
{
    lemma_lobe_bounds(s, axis, true);
    lemma_lobe_bounds(s, axis, false);
    let cp = lobe_count(s, axis, true) as int;
    let cn = lobe_count(s, axis, false) as int;
    let sp = lobe_sum(s, axis, true);
    let sn = lobe_sum(s, axis, false);
    lemma_round_between(sp, cp, 7354988, COMPONENT_LIMIT as int);
    assert(sn <= cn * -7354988) by (nonlinear_arith)
        requires
            sn <= -(cn * 7354988),
    ;
    assert(cn * (-COMPONENT_LIMIT) <= sn) by (nonlinear_arith)
        requires
            sn >= -(cn * COMPONENT_LIMIT),
    ;
    lemma_round_between(sn, cn, -COMPONENT_LIMIT as int, -7354988);
}

/// Sum of component `axis` over all samples.
fn sum_axis(points: &Vec<Vec3>, axis: usize) -> (r: i128)
    requires
        axis < 3,
        all_in_range(points@),
    ensures
        r == axis_sum(points@, axis as int),
{
    let mut sum: i128 = 0;
    let mut i: usize = 0;
    while i < points.len()
        invariant
            i <= points@.len(),
            axis < 3,
            all_in_range(points@),
            sum == axis_sum(points@.take(i as int), axis as int),
        decreases points@.len() - i,
    {
        proof {
            assert(points@.take(i + 1).drop_last() =~= points@.take(i as int));
            assert(points@.take(i + 1).last() == points@[i as int]);
            lemma_axis_sum_bound(points@.take(i as int), axis as int);
            assert(points@[i as int].in_range());
        }
        sum = sum + points[i].get(axis) as i128;
        i += 1;
    }
    proof {
        assert(points@.take(i as int) =~= points@);
    }
    sum
}

/// Sum and size of one lobe of component `axis`.
fn sum_lobe(points: &Vec<Vec3>, axis: usize, positive: bool) -> (r: (i128, usize))
    requires
        axis < 3,
        all_in_range(points@),
    ensures
        r.0 == lobe_sum(points@, axis as int, positive),
        r.1 == lobe_count(points@, axis as int, positive),
{
    let mut sum: i128 = 0;
    let mut count: usize = 0;
    let mut i: usize = 0;
    while i < points.len()
        invariant
            i <= points@.len(),
            axis < 3,
            all_in_range(points@),
            sum == lobe_sum(points@.take(i as int), axis as int, positive),
            count == lobe_count(points@.take(i as int), axis as int, positive),
        decreases points@.len() - i,
    {
        proof {
            assert(points@.take(i + 1).drop_last() =~= points@.take(i as int));
            assert(points@.take(i + 1).last() == points@[i as int]);
            lemma_lobe_bounds(points@.take(i as int), axis as int, positive);
            assert(points@[i as int].in_range());
        }
        let v = points[i].get(axis);
        let inside = if positive {
            4 * (v as i128) > 3 * (G0 as i128)
        } else {
            4 * (v as i128) < -3 * (G0 as i128)
        };
        if inside {
            sum = sum + v as i128;
            count = count + 1;
        }
        i += 1;
    }
    proof {
        assert(points@.take(i as int) =~= points@);
    }
    (sum, count)
}

/// Gyroscope offset: the component-wise mean of the samples, rounded to the
/// nearest micro-unit.
pub fn gyro_offset(points: &Vec<Vec3>) -> (r: Result<Vec3, CalError>)
    requires
        all_in_range(points@),
    ensures
        points@.len() == 0 ==> r == Err::<Vec3, CalError>(
            CalError::InsufficientData(Shortfall::GyroSamples),
        ),
        points@.len() > 0 ==> r is Ok && vec_is(
            r->Ok_0,
            axis_mean(points@, 0),
            axis_mean(points@, 1),
            axis_mean(points@, 2),
        ) && (r->Ok_0).in_range(),
{
    let n = points.len();
    if n == 0 {
        return Err(CalError::InsufficientData(Shortfall::GyroSamples));
    }
    let sx = sum_axis(points, 0);
    let sy = sum_axis(points, 1);
    let sz = sum_axis(points, 2);
    proof {
        let c = n as int;
        let l = COMPONENT_LIMIT as int;
        lemma_axis_sum_bound(points@, 0);
        lemma_axis_sum_bound(points@, 1);
        lemma_axis_sum_bound(points@, 2);
        assert forall|a: int| within(#[trigger] axis_sum(points@, a), c * l) implies c * -l
            <= axis_sum(points@, a) <= c * l by {
            assert(c * -l == -(c * l)) by (nonlinear_arith);
        }
        lemma_round_between(sx as int, c, -l, l);
        lemma_round_between(sy as int, c, -l, l);
        lemma_round_between(sz as int, c, -l, l);
    }
    let mx = div_nearest(sx, n as i128);
    let my = div_nearest(sy, n as i128);
    let mz = div_nearest(sz, n as i128);
    Ok(Vec3 { x: mx as i64, y: my as i64, z: mz as i64 })
}

/// Offset and scale, in that order, of one accelerometer axis from its two lobes.
fn lobe_calibration(points: &Vec<Vec3>, axis: usize) -> (r: Result<(i64, i64), CalError>)
    requires
        axis < 3,
        all_in_range(points@),
    ensures
        lobe_count(points@, axis as int, true) == 0 ==> r == Err::<(i64, i64), CalError>(
            CalError::InsufficientData(Shortfall::AccLobe { axis: axis as u8, positive: true }),
        ),
        lobe_count(points@, axis as int, true) > 0 && lobe_count(points@, axis as int, false)
            == 0 ==> r == Err::<(i64, i64), CalError>(
            CalError::InsufficientData(Shortfall::AccLobe { axis: axis as u8, positive: false }),
        ),
        lobe_count(points@, axis as int, true) > 0 && lobe_count(points@, axis as int, false)
            > 0 ==> r is Ok && (r->Ok_0).0 == acc_offset_axis(points@, axis as int) && (
        r->Ok_0).1 == acc_scale_axis(points@, axis as int) && within(
            (r->Ok_0).0 as int,
            COMPONENT_LIMIT as int,
        ) && 0 <= (r->Ok_0).1 <= SCALE_LIMIT,
{
    let (sp, cp) = sum_lobe(points, axis, true);
    if cp == 0 {
        return Err(CalError::InsufficientData(Shortfall::AccLobe { axis: axis as u8, positive: true }));
    }
    let (sn, cn) = sum_lobe(points, axis, false);
    if cn == 0 {
        return Err(CalError::InsufficientData(Shortfall::AccLobe { axis: axis as u8, positive: false }));
    }
    proof {
        lemma_lobe_mean_bounds(points@, axis as int);
    }
    proof {
        lemma_lobe_bounds(points@, axis as int, true);
        lemma_lobe_bounds(points@, axis as int, false);
    }
    let mean_p = div_nearest(sp, cp as i128);
    let mean_n = div_nearest(sn, cn as i128);
    proof {
        let t = -(mean_p + mean_n);
        assert(2 * -COMPONENT_LIMIT <= t <= 2 * COMPONENT_LIMIT);
        lemma_round_between(t as int, 2, -COMPONENT_LIMIT as int, COMPONENT_LIMIT as int);
    }
    let offset = div_nearest(-(mean_p + mean_n), 2);
    let range = mean_p - mean_n;
    let swing: i128 = 19_613_300_000_000;
    assert(swing == 2 * G0 * UNIT);
    proof {
        lemma_div_between(swing as int, range as int, 0, SCALE_LIMIT as int);
    }
    let scale = div_floor(swing, range);
    Ok((offset as i64, scale as i64))
}

/// Accelerometer offset and scale (in millionths), in that order, from samples
/// taken in the six static orientations.
pub fn acc_offset_scale(points: &Vec<Vec3>) -> (r: Result<(Vec3, Vec3), CalError>)
    requires
        all_in_range(points@),
    ensures
        acc_shortfall(points@) is Some ==> r == Err::<(Vec3, Vec3), CalError>(
            CalError::InsufficientData(acc_shortfall(points@)->Some_0),
        ),
        acc_shortfall(points@) is None ==> r is Ok && vec_is(
            (r->Ok_0).0,
            acc_offset_axis(points@, 0),
            acc_offset_axis(points@, 1),
            acc_offset_axis(points@, 2),
        ) && vec_is(
            (r->Ok_0).1,
            acc_scale_axis(points@, 0),
            acc_scale_axis(points@, 1),
            acc_scale_axis(points@, 2),
        ) && (r->Ok_0).0.in_range() && scale_in_range((r->Ok_0).1),
{
    let (ox, sx) = match lobe_calibration(points, 0) {
        Ok(v) => v,
        Err(e) => return Err(e),
    };
    let (oy, sy) = match lobe_calibration(points, 1) {
        Ok(v) => v,
        Err(e) => return Err(e),
    };
    let (oz, sz) = match lobe_calibration(points, 2) {
        Ok(v) => v,
        Err(e) => return Err(e),
    };
    Ok((Vec3 { x: ox, y: oy, z: oz }, Vec3 { x: sx, y: sy, z: sz }))
}

/// Every component of an accelerometer scale lies in `[0, SCALE_LIMIT]`.
pub open spec fn scale_in_range(s: Vec3) -> bool {
    &&& 0 <= s.x <= SCALE_LIMIT
    &&& 0 <= s.y <= SCALE_LIMIT
    &&& 0 <= s.z <= SCALE_LIMIT
}

/// A calibration model: gyroscope offset, accelerometer offset and scale, and
/// the magnetometer's soft-iron transform and hard-iron bias.
///
/// Offsets and the bias are in micro-units; the scale and the transform's
/// entries are in millionths.
#[derive(Debug, Clone, Copy, PartialEq, Eq, Structural)]
pub struct CalData {
    pub gyro_offset: Vec3,
    pub acc_offset: Vec3,
    pub acc_scale: Vec3,
    pub soft_iron_transf: Mat3,
    pub hard_iron_bias: Vec3,
}

/// Corrected gyroscope component: `raw − offset`.
pub open spec fn gyro_corrected(c: CalData, p: Vec3, axis: int) -> int {
    p.comp(axis) - c.gyro_offset.comp(axis)
}

/// Corrected accelerometer component: `(raw + offset) · scale`, rounded down.
pub open spec fn acc_corrected(c: CalData, p: Vec3, axis: int) -> int {
    ((p.comp(axis) + c.acc_offset.comp(axis)) * c.acc_scale.comp(axis)) / (UNIT as int)
}

/// Corrected magnetometer component: row `axis` of the soft-iron transform
/// applied to `raw − bias`, rounded down.
pub open spec fn mag_corrected(c: CalData, p: Vec3, axis: int) -> int {
    let m = c.soft_iron_transf.row(axis);
    let b = c.hard_iron_bias;
    (m.x * (p.x - b.x) + m.y * (p.y - b.y) + m.z * (p.z - b.z)) / (UNIT as int)
}

impl CalData {
    /// The model's values lie within the fixed-point limits.
    pub open spec fn wf(self) -> bool {
        &&& self.gyro_offset.in_range()
        &&& self.acc_offset.in_range()
        &&& scale_in_range(self.acc_scale)
        &&& self.soft_iron_transf.entries_within(MATRIX_LIMIT as int)
        &&& self.hard_iron_bias.in_range()
    }

    /// Magnetometer sample corrected by the model: `soft_iron · (raw − bias)`.
    pub fn apply_mag_cal(&self, mag_point: &Vec3) -> (r: Vec3)
        requires
            self.wf(),
            mag_point.in_range(),
        ensures
            vec_is(
                r,
                mag_corrected(*self, *mag_point, 0),
                mag_corrected(*self, *mag_point, 1),
                mag_corrected(*self, *mag_point, 2),
            ),
    {
        let b = self.hard_iron_bias;
        let m = self.soft_iron_transf;
        Vec3 {
            x: row_times(&m.r0, mag_point, &b),
            y: row_times(&m.r1, mag_point, &b),
            z: row_times(&m.r2, mag_point, &b),
        }
    }

    /// Gyroscope sample corrected by the model: `raw − offset`.
    pub fn apply_gyro_cal(&self, p: &Vec3) -> (r: Vec3)
        requires
            self.wf(),
            p.in_range(),
        ensures
            vec_is(
                r,
                gyro_corrected(*self, *p, 0),
                gyro_corrected(*self, *p, 1),
                gyro_corrected(*self, *p, 2),
            ),
    {
        let o = self.gyro_offset;
        Vec3 { x: p.x - o.x, y: p.y - o.y, z: p.z - o.z }
    }

    /// Accelerometer sample corrected by the model: `(raw + offset) · scale`.
    pub fn apply_acc_cal(&self, p: &Vec3) -> (r: Vec3)
        requires
            self.wf(),
            p.in_range(),
        ensures
            vec_is(
                r,
                acc_corrected(*self, *p, 0),
                acc_corrected(*self, *p, 1),
                acc_corrected(*self, *p, 2),
            ),
    {
        Vec3 {
            x: scaled_sum(p.x, self.acc_offset.x, self.acc_scale.x),
            y: scaled_sum(p.y, self.acc_offset.y, self.acc_scale.y),
            z: scaled_sum(p.z, self.acc_offset.z, self.acc_scale.z),
        }
    }
}

/// `(v + o) · s / UNIT`, rounded down.
fn scaled_sum(v: i64, o: i64, s: i64) -> (r: i64)
    requires
        within(v as int, COMPONENT_LIMIT as int),
        within(o as int, COMPONENT_LIMIT as int),
        0 <= s <= SCALE_LIMIT,
    ensures
        r == ((v + o) * s) / (UNIT as int),
{
    let t = (v as i128) + (o as i128);
    proof {
        let ti = t as int;
        let si = s as int;
        assert(-4611686018427387904 <= ti * si <= 4611686018427387904) by (nonlinear_arith)
            requires
                -2199023255552 <= ti <= 2199023255552,
                0 <= si <= 2097152,
        ;
        lemma_div_between(ti * si, 1000000, -4611686018428, 4611686018428);
    }
    div_floor(t * (s as i128), UNIT as i128) as i64
}

/// Row `m` of a matrix applied to `p − b`, divided by `UNIT` and rounded down.
fn row_times(m: &Vec3, p: &Vec3, b: &Vec3) -> (r: i64)
    requires
        forall|a: int| 0 <= a < 3 ==> within(#[trigger] m.comp(a), MATRIX_LIMIT as int),
        p.in_range(),
        b.in_range(),
    ensures
        r == (m.x * (p.x - b.x) + m.y * (p.y - b.y) + m.z * (p.z - b.z)) / (UNIT as int),
{
    assert(m.comp(0) == m.x && m.comp(1) == m.y && m.comp(2) == m.z);
    let dx = (p.x as i128) - (b.x as i128);
    let dy = (p.y as i128) - (b.y as i128);
    let dz = (p.z as i128) - (b.z as i128);
    proof {
        let l = 2199023255552int;
        let k = 1073741824int;
        assert(within(m.x * dx, k * l)) by (nonlinear_arith)
            requires within(m.x as int, k), within(dx as int, l), k > 0, l > 0;
        assert(within(m.y * dy, k * l)) by (nonlinear_arith)
            requires within(m.y as int, k), within(dy as int, l), k > 0, l > 0;
        assert(within(m.z * dz, k * l)) by (nonlinear_arith)
            requires within(m.z as int, k), within(dz as int, l), k > 0, l > 0;
        let t = m.x * dx + m.y * dy + m.z * dz;
        assert(within(t, 3 * (k * l)));
        lemma_div_between(t, 1000000, -7083549724304468, 7083549724304468);
    }
    let t = (m.x as i128) * dx + (m.y as i128) * dy + (m.z as i128) * dz;
    div_floor(t, UNIT as i128) as i64
}

/// One step of the exponential moving average that gates still samples:
/// `avg·(100 − w)/100 + s·w/100`, rounded down.
pub open spec fn ema(avg: int, s: int, w: int) -> int {
    (avg * (100 - w) + s * w) / 100
}

/// Weight in hundredths of a new gyroscope sample in its moving average (α = 0.98).
pub const GYRO_EMA_WEIGHT: i64 = 2;

/// Weight in hundredths of a new accelerometer sample in its moving average (α = 0.95).
pub const ACC_EMA_WEIGHT: i64 = 5;

/// Square of the gyroscope stillness threshold of 10⁻³ rad/s, in micro-units.
pub const GYRO_STILL_THRESHOLD_SQ: i128 = 1_000_000;

/// Square of the accelerometer stillness threshold of 10⁻² m/s², in micro-units.
pub const ACC_STILL_THRESHOLD_SQ: i128 = 100_000_000;

/// What a sample store holds.
pub struct CalView {
    pub gyro: Seq<Vec3>,
    pub acc: Seq<Vec3>,
    pub mag: Seq<Vec3>,
    pub gyro_avg: Vec3,
    pub acc_avg: Vec3,
    pub cal_data: Option<CalData>,
}

impl CalView {
    /// All samples, averages and the model lie within the fixed-point limits.
    pub open spec fn wf(self) -> bool {
        &&& all_in_range(self.gyro)
        &&& all_in_range(self.acc)
        &&& all_in_range(self.mag)
        &&& self.gyro_avg.in_range()
        &&& self.acc_avg.in_range()
        &&& (self.cal_data is Some ==> self.cal_data->Some_0.wf())
    }
}

/// The calibration result for a store's samples and a fitted soft-iron
/// transform and hard-iron bias. The checks are made in this order: gyroscope
/// samples, accelerometer lobes, magnetometer sample count, magnetometer limits.
pub open spec fn calibration_of(v: CalView, soft: Mat3, bias: Vec3) -> Result<CalData, CalError> {
    if v.gyro.len() == 0 {
        Err(CalError::InsufficientData(Shortfall::GyroSamples))
    } else if acc_shortfall(v.acc) is Some {
        Err(CalError::InsufficientData(acc_shortfall(v.acc)->Some_0))
    } else if v.mag.to_set().len() < MIN_MAG_SAMPLES {
        Err(CalError::InsufficientData(Shortfall::MagSamples))
    } else if !(bias.in_range() && soft.entries_within(MATRIX_LIMIT as int)) {
        Err(CalError::OutOfRange)
    } else {
        Ok(
            CalData {
                gyro_offset: Vec3 {
                    x: axis_mean(v.gyro, 0) as i64,
                    y: axis_mean(v.gyro, 1) as i64,
                    z: axis_mean(v.gyro, 2) as i64,
                },
                acc_offset: Vec3 {
                    x: acc_offset_axis(v.acc, 0) as i64,
                    y: acc_offset_axis(v.acc, 1) as i64,
                    z: acc_offset_axis(v.acc, 2) as i64,
                },
                acc_scale: Vec3 {
                    x: acc_scale_axis(v.acc, 0) as i64,
                    y: acc_scale_axis(v.acc, 1) as i64,
                    z: acc_scale_axis(v.acc, 2) as i64,
                },
                soft_iron_transf: soft,
                hard_iron_bias: bias,
            },
        )
    }
}

/// Whether `v` occurs in `s`.
fn contains_vec(s: &Vec<Vec3>, v: &Vec3) -> (r: bool)
    ensures
        r == s@.contains(*v),
{
    let mut i: usize = 0;
    while i < s.len()
        invariant
            i <= s@.len(),
            forall|j: int| 0 <= j < i ==> s@[j] != *v,
        decreases s@.len() - i,
    {
        if s[i] == *v {
            return true;
        }
        i += 1;
    }
    false
}

/// Whether at least `min` of the points are distinct.
fn has_distinct(points: &Vec<Vec3>, min: usize) -> (r: bool)
    requires
        min <= 64,
    ensures
        r == (points@.to_set().len() >= min),
{
    let mut distinct: Vec<Vec3> = Vec::new();
    let mut i: usize = 0;
    proof {
        assert(points@.take(0).to_set() =~= distinct@.to_set());
    }
    while i < points.len() && distinct.len() < min
        invariant
            i <= points@.len(),
            distinct@.len() <= min,
            min <= 64,
            distinct@.no_duplicates(),
            distinct@.to_set() == points@.take(i as int).to_set(),
        decreases points@.len() - i,
    {
        let p = points[i];
        let ghost old_d = distinct@;
        proof {
            assert(points@.take(i + 1) =~= points@.take(i as int).push(p));
            points@.take(i as int).lemma_push_to_set_commute(p);
        }
        if !contains_vec(&distinct, &p) {
            distinct.push(p);
            proof {
                assert(distinct@ =~= old_d.push(p));
                old_d.lemma_push_to_set_commute(p);
                assert forall|a: int, b: int|
                    0 <= a < distinct@.len() && 0 <= b < distinct@.len() && a != b implies distinct@[a]
                    != distinct@[b] by {
                    if b == distinct@.len() - 1 {
                        assert(old_d.contains(distinct@[a]) ==> a < old_d.len());
                        if a < old_d.len() {
                            assert(old_d[a] == distinct@[a]);
                        }
                    } else if a == distinct@.len() - 1 {
                        assert(old_d[b] == distinct@[b]);
                    }
                }
            }
        } else {
            proof {
                assert(old_d.to_set().contains(p));
                assert(old_d.to_set().insert(p) =~= old_d.to_set());
            }
        }
        i += 1;
    }
    proof {
        distinct@.unique_seq_to_set();
        if i == points.len() {
            assert(points@.take(i as int) =~= points@);
        } else {
            assert forall|x: Vec3| distinct@.to_set().contains(x) implies points@.to_set().contains(x) by {
                let j = choose|j: int| 0 <= j < i && points@.take(i as int)[j] == x;
                assert(points@[j] == x);
            }
            vstd::seq_lib::seq_to_set_is_finite(points@);
            vstd::set_lib::lemma_len_subset(distinct@.to_set(), points@.to_set());
        }
    }
    distinct.len() >= min
}

/// Accumulated gyroscope, accelerometer and magnetometer samples, the moving
/// averages that gate still samples, and the last calibration model.
#[derive(Debug)]
pub struct Cal {
    gyro_points: Vec<Vec3>,
    acc_points: Vec<Vec3>,
    mag_points: Vec<Vec3>,
    acc_points_avg: Vec3,
    gyro_points_avg: Vec3,
    cal_data: Option<CalData>,
}

impl View for Cal {
    type V = CalView;

    closed spec fn view(&self) -> CalView {
        CalView {
            gyro: self.gyro_points@,
            acc: self.acc_points@,
            mag: self.mag_points@,
            gyro_avg: self.gyro_points_avg,
            acc_avg: self.acc_points_avg,
            cal_data: self.cal_data,
        }
    }
}

/// Moving average updated by sample `s` with weight `w` hundredths.
fn ema_step(avg: &Vec3, s: &Vec3, w: i64) -> (r: Vec3)
    requires
        avg.in_range(),
        s.in_range(),
        0 <= w <= 100,
    ensures
        vec_is(r, ema(avg.x as int, s.x as int, w as int), ema(avg.y as int, s.y as int, w as int), ema(avg.z as int, s.z as int, w as int)),
        r.in_range(),
{
    Vec3 { x: ema_comp(avg.x, s.x, w), y: ema_comp(avg.y, s.y, w), z: ema_comp(avg.z, s.z, w) }
}

fn ema_comp(a: i64, s: i64, w: i64) -> (r: i64)
    requires
        within(a as int, COMPONENT_LIMIT as int),
        within(s as int, COMPONENT_LIMIT as int),
        0 <= w <= 100,
    ensures
        r == ema(a as int, s as int, w as int),
        within(r as int, COMPONENT_LIMIT as int),
{
    proof {
        let l = COMPONENT_LIMIT as int;
        let t = a * (100 - w) + s * w;
        assert(100 * -l <= t <= 100 * l) by (nonlinear_arith)
            requires
                -l <= a <= l,
                -l <= s <= l,
                0 <= w <= 100,
                t == a * (100 - w) + s * w,
        ;
        lemma_div_between(t, 100, -l, l);
        assert(within(a * (100 - w), 100 * l)) by (nonlinear_arith)
            requires -l <= a <= l, 0 <= w <= 100;
        assert(within(s * w, 100 * l)) by (nonlinear_arith)
            requires -l <= s <= l, 0 <= w <= 100;
    }
    let t = (a as i128) * ((100 - w) as i128) + (s as i128) * (w as i128);
    div_floor(t, 100) as i64
}

/// Squared distance between two in-range vectors.
fn distance_sq(a: &Vec3, b: &Vec3) -> (r: i128)
    requires
        a.in_range(),
        b.in_range(),
    ensures
        r == crate::vector::dist2(*a, *b),
{
    let dx = (a.x as i128) - (b.x as i128);
    let dy = (a.y as i128) - (b.y as i128);
    let dz = (a.z as i128) - (b.z as i128);
    proof {
        let l = 2199023255552int;
        assert(0 <= dx * dx <= l * l) by (nonlinear_arith)
            requires -l <= dx <= l;
        assert(0 <= dy * dy <= l * l) by (nonlinear_arith)
            requires -l <= dy <= l;
        assert(0 <= dz * dz <= l * l) by (nonlinear_arith)
            requires -l <= dz <= l;
    }
    dx * dx + dy * dy + dz * dz
}

impl Cal {
    /// The store's samples, averages and model lie within the fixed-point limits.
    pub open spec fn wf(&self) -> bool {
        self@.wf()
    }

    /// An empty store with zero averages and no model.
    pub fn new() -> (r: Cal)
        ensures
            r.wf(),
            r@.gyro.len() == 0,
            r@.acc.len() == 0,
            r@.mag.len() == 0,
            r@.gyro_avg == (Vec3 { x: 0, y: 0, z: 0 }),
            r@.acc_avg == (Vec3 { x: 0, y: 0, z: 0 }),
            r@.cal_data is None,
    {
        Cal {
            gyro_points: Vec::new(),
            acc_points: Vec::new(),
            mag_points: Vec::new(),
            acc_points_avg: Vec3::zeros(),
            gyro_points_avg: Vec3::zeros(),
            cal_data: None,
        }
    }

    /// Updates the accelerometer moving average with `data` (α = 0.95), then
    /// keeps `data` when it lies closer than 10⁻² m/s² to the new average.
    pub fn add_acc_measurement_still(&mut self, data: Vec3)
        requires
            old(self).wf(),
            data.in_range(),
        ensures
            final(self).wf(),
            vec_is(
                final(self)@.acc_avg,
                ema(old(self)@.acc_avg.x as int, data.x as int, ACC_EMA_WEIGHT as int),
                ema(old(self)@.acc_avg.y as int, data.y as int, ACC_EMA_WEIGHT as int),
                ema(old(self)@.acc_avg.z as int, data.z as int, ACC_EMA_WEIGHT as int),
            ),
            final(self)@.acc == if crate::vector::dist2(final(self)@.acc_avg, data)
                < ACC_STILL_THRESHOLD_SQ {
                old(self)@.acc.push(data)
            } else {
                old(self)@.acc
            },
            final(self)@.gyro == old(self)@.gyro,
            final(self)@.mag == old(self)@.mag,
            final(self)@.gyro_avg == old(self)@.gyro_avg,
            final(self)@.cal_data == old(self)@.cal_data,
    {
        self.acc_points_avg = ema_step(&self.acc_points_avg, &data, ACC_EMA_WEIGHT);
        if distance_sq(&self.acc_points_avg, &data) < ACC_STILL_THRESHOLD_SQ {
            self.acc_points.push(data);
        }
    }

    /// Updates the gyroscope moving average with `data` (α = 0.98), then keeps
    /// `data` when it lies closer than 10⁻³ rad/s to the new average.
    pub fn add_gyro_measurement_still(&mut self, data: Vec3)
        requires
            old(self).wf(),
            data.in_range(),
        ensures
            final(self).wf(),
            vec_is(
                final(self)@.gyro_avg,
                ema(old(self)@.gyro_avg.x as int, data.x as int, GYRO_EMA_WEIGHT as int),
                ema(old(self)@.gyro_avg.y as int, data.y as int, GYRO_EMA_WEIGHT as int),
                ema(old(self)@.gyro_avg.z as int, data.z as int, GYRO_EMA_WEIGHT as int),
            ),
            final(self)@.gyro == if crate::vector::dist2(final(self)@.gyro_avg, data)
                < GYRO_STILL_THRESHOLD_SQ {
                old(self)@.gyro.push(data)
            } else {
                old(self)@.gyro
            },
            final(self)@.acc == old(self)@.acc,
            final(self)@.mag == old(self)@.mag,
            final(self)@.acc_avg == old(self)@.acc_avg,
            final(self)@.cal_data == old(self)@.cal_data,
    {
        self.gyro_points_avg = ema_step(&self.gyro_points_avg, &data, GYRO_EMA_WEIGHT);
        if distance_sq(&self.gyro_points_avg, &data) < GYRO_STILL_THRESHOLD_SQ {
            self.gyro_points.push(data);
        }
    }

    /// Appends a gyroscope sample.
    pub fn add_gyro_measurement(&mut self, data: Vec3)
        requires
            old(self).wf(),
            data.in_range(),
        ensures
            final(self).wf(),
            final(self)@ == (CalView { gyro: old(self)@.gyro.push(data), ..old(self)@ }),
    {
        self.gyro_points.push(data);
    }

    /// Appends an accelerometer sample.
    pub fn add_acc_measurement(&mut self, data: Vec3)
        requires
            old(self).wf(),
            data.in_range(),
        ensures
            final(self).wf(),
            final(self)@ == (CalView { acc: old(self)@.acc.push(data), ..old(self)@ }),
    {
        self.acc_points.push(data);
    }

    /// Appends a magnetometer sample.
    pub fn add_mag_measurement(&mut self, data: Vec3)
        requires
            old(self).wf(),
            data.in_range(),
        ensures
            final(self).wf(),
            final(self)@ == (CalView { mag: old(self)@.mag.push(data), ..old(self)@ }),
    {
        self.mag_points.push(data);
    }

    /// The recorded gyroscope samples, oldest first.
    pub fn gyro_measurements(&self) -> (r: &Vec<Vec3>)
        ensures
            r@ == self@.gyro,
    {
        &self.gyro_points
    }

    /// The recorded accelerometer samples, oldest first.
    pub fn acc_measurements(&self) -> (r: &Vec<Vec3>)
        ensures
            r@ == self@.acc,
    {
        &self.acc_points
    }

    /// The recorded magnetometer samples, oldest first.
    pub fn mag_measurements(&self) -> (r: &Vec<Vec3>)
        ensures
            r@ == self@.mag,
    {
        &self.mag_points
    }

    /// The gyroscope samples corrected by the last model; empty while there is none.
    pub fn gyro_measurements_with_cal(&self) -> (r: Vec<Vec3>)
        requires
            self.wf(),
        ensures
            self@.cal_data is None ==> r@.len() == 0,
            self@.cal_data is Some ==> r@.len() == self@.gyro.len() && forall|i: int|
                0 <= i < r@.len() ==> vec_is(
                    #[trigger] r@[i],
                    gyro_corrected(self@.cal_data->Some_0, self@.gyro[i], 0),
                    gyro_corrected(self@.cal_data->Some_0, self@.gyro[i], 1),
                    gyro_corrected(self@.cal_data->Some_0, self@.gyro[i], 2),
                ),
    {
        let mut out: Vec<Vec3> = Vec::new();
        if let Some(c) = self.cal_data {
            let mut i: usize = 0;
            while i < self.gyro_points.len()
                invariant
                    self.wf(),
                    self@.cal_data == Some(c),
                    i <= self@.gyro.len(),
                    out@.len() == i,
                    forall|j: int|
                        0 <= j < i ==> vec_is(
                            #[trigger] out@[j],
                            gyro_corrected(c, self@.gyro[j], 0),
                            gyro_corrected(c, self@.gyro[j], 1),
                            gyro_corrected(c, self@.gyro[j], 2),
                        ),
                decreases self@.gyro.len() - i,
            {
                assert(self@.gyro[i as int].in_range());
                out.push(c.apply_gyro_cal(&self.gyro_points[i]));
                i += 1;
            }
        }
        out
    }

    /// The accelerometer samples corrected by the last model; empty while there is none.
    pub fn acc_measurements_with_cal(&self) -> (r: Vec<Vec3>)
        requires
            self.wf(),
        ensures
            self@.cal_data is None ==> r@.len() == 0,
            self@.cal_data is Some ==> r@.len() == self@.acc.len() && forall|i: int|
                0 <= i < r@.len() ==> vec_is(
                    #[trigger] r@[i],
                    acc_corrected(self@.cal_data->Some_0, self@.acc[i], 0),
                    acc_corrected(self@.cal_data->Some_0, self@.acc[i], 1),
                    acc_corrected(self@.cal_data->Some_0, self@.acc[i], 2),
                ),
    {
        let mut out: Vec<Vec3> = Vec::new();
        if let Some(c) = self.cal_data {
            let mut i: usize = 0;
            while i < self.acc_points.len()
                invariant
                    self.wf(),
                    self@.cal_data == Some(c),
                    i <= self@.acc.len(),
                    out@.len() == i,
                    forall|j: int|
                        0 <= j < i ==> vec_is(
                            #[trigger] out@[j],
                            acc_corrected(c, self@.acc[j], 0),
                            acc_corrected(c, self@.acc[j], 1),
                            acc_corrected(c, self@.acc[j], 2),
                        ),
                decreases self@.acc.len() - i,
            {
                assert(self@.acc[i as int].in_range());
                out.push(c.apply_acc_cal(&self.acc_points[i]));
                i += 1;
            }
        }
        out
    }

    /// The magnetometer samples corrected by the last model; empty while there is none.
    pub fn mag_measurements_with_cal(&self) -> (r: Vec<Vec3>)
        requires
            self.wf(),
        ensures
            self@.cal_data is None ==> r@.len() == 0,
            self@.cal_data is Some ==> r@.len() == self@.mag.len() && forall|i: int|
                0 <= i < r@.len() ==> vec_is(
                    #[trigger] r@[i],
                    mag_corrected(self@.cal_data->Some_0, self@.mag[i], 0),
                    mag_corrected(self@.cal_data->Some_0, self@.mag[i], 1),
                    mag_corrected(self@.cal_data->Some_0, self@.mag[i], 2),
                ),
    {
        let mut out: Vec<Vec3> = Vec::new();
        if let Some(c) = self.cal_data {
            let mut i: usize = 0;
            while i < self.mag_points.len()
                invariant
                    self.wf(),
                    self@.cal_data == Some(c),
                    i <= self@.mag.len(),
                    out@.len() == i,
                    forall|j: int|
                        0 <= j < i ==> vec_is(
                            #[trigger] out@[j],
                            mag_corrected(c, self@.mag[j], 0),
                            mag_corrected(c, self@.mag[j], 1),
                            mag_corrected(c, self@.mag[j], 2),
                        ),
                decreases self@.mag.len() - i,
            {
                assert(self@.mag[i as int].in_range());
                out.push(c.apply_mag_cal(&self.mag_points[i]));
                i += 1;
            }
        }
        out
    }

    /// Discards the gyroscope samples; the averages and the model stay.
    pub fn clear_gyro_measurements(&mut self)
        requires
            old(self).wf(),
        ensures
            final(self).wf(),
            final(self)@ == (CalView { gyro: Seq::<Vec3>::empty(), ..old(self)@ }),
    {
        self.gyro_points.clear();
    }

    /// Discards the accelerometer samples; the averages and the model stay.
    pub fn clear_accel_measurements(&mut self)
        requires
            old(self).wf(),
        ensures
            final(self).wf(),
            final(self)@ == (CalView { acc: Seq::<Vec3>::empty(), ..old(self)@ }),
    {
        self.acc_points.clear();
    }

    /// Discards the magnetometer samples; the averages and the model stay.
    pub fn clear_mag_measurements(&mut self)
        requires
            old(self).wf(),
        ensures
            final(self).wf(),
            final(self)@ == (CalView { mag: Seq::<Vec3>::empty(), ..old(self)@ }),
    {
        self.mag_points.clear();
    }

    /// Appends recorded sample sequences, in order, to the store.
    pub fn extend_measurements(&mut self, acc: &Vec<Vec3>, gyro: &Vec<Vec3>, mag: &Vec<Vec3>)
        requires
            old(self).wf(),
            all_in_range(acc@),
            all_in_range(gyro@),
            all_in_range(mag@),
        ensures
            final(self).wf(),
            final(self)@ == (CalView {
                acc: old(self)@.acc + acc@,
                gyro: old(self)@.gyro + gyro@,
                mag: old(self)@.mag + mag@,
                ..old(self)@
            }),
    {
        append_all(&mut self.acc_points, acc);
        append_all(&mut self.gyro_points, gyro);
        append_all(&mut self.mag_points, mag);
    }

    /// The magnetometer samples for an ellipsoid fit, or `InsufficientData`
    /// when fewer than `MIN_MAG_SAMPLES` of them are distinct.
    pub fn mag_fit_points(&self) -> (r: Result<&Vec<Vec3>, CalError>)
        ensures
            self@.mag.to_set().len() < MIN_MAG_SAMPLES ==> r == Err::<&Vec<Vec3>, CalError>(
                CalError::InsufficientData(Shortfall::MagSamples),
            ),
            self@.mag.to_set().len() >= MIN_MAG_SAMPLES ==> r is Ok && (r->Ok_0)@ == self@.mag,
    {
        if !has_distinct(&self.mag_points, MIN_MAG_SAMPLES) {
            Err(CalError::InsufficientData(Shortfall::MagSamples))
        } else {
            Ok(&self.mag_points)
        }
    }

    /// Computes a model from the accumulated samples and a fitted soft-iron
    /// transform and hard-iron bias. On success the model replaces the
    /// previous one; on failure the store is left as it was.
    pub fn calibrate(&mut self, soft_iron_transf: Mat3, hard_iron_bias: Vec3) -> (r: Result<
        CalData,
        CalError,
    >)
        requires
            old(self).wf(),
        ensures
            final(self).wf(),
            r == calibration_of(old(self)@, soft_iron_transf, hard_iron_bias),
            r is Ok ==> final(self)@ == (CalView { cal_data: Some(r->Ok_0), ..old(self)@ }),
            r is Err ==> final(self)@ == old(self)@,
    {
        let gyro_offset = match gyro_offset(&self.gyro_points) {
            Ok(v) => v,
            Err(e) => return Err(e),
        };
        let (acc_offset, acc_scale) = match acc_offset_scale(&self.acc_points) {
            Ok(v) => v,
            Err(e) => return Err(e),
        };
        if !has_distinct(&self.mag_points, MIN_MAG_SAMPLES) {
            return Err(CalError::InsufficientData(Shortfall::MagSamples));
        }
        if !(hard_iron_bias.is_in_range() && soft_iron_transf.is_within(MATRIX_LIMIT)) {
            return Err(CalError::OutOfRange);
        }
        let cal_data = CalData {
            gyro_offset,
            acc_offset,
            acc_scale,
            soft_iron_transf,
            hard_iron_bias,
        };
        self.cal_data = Some(cal_data);
        Ok(cal_data)
    }
}

/// Appends every element of `src` to `dst`.
fn append_all(dst: &mut Vec<Vec3>, src: &Vec<Vec3>)
    ensures
        final(dst)@ == old(dst)@ + src@,
{
    let mut i: usize = 0;
    while i < src.len()
        invariant
            i <= src@.len(),
            dst@ == old(dst)@ + src@.take(i as int),
        decreases src@.len() - i,
    {
        proof {
            assert(src@.take(i + 1) =~= src@.take(i as int).push(src@[i as int]));
        }
        dst.push(src[i]);
        i += 1;
    }
    proof {
        assert(src@.take(i as int) =~= src@);
    }
}

proof fn lemma_axis_sum_constant(s: Seq<Vec3>, v: Vec3, axis: int)
    requires
        forall|i: int| 0 <= i < s.len() ==> #[trigger] s[i] == v,
    ensures
        axis_sum(s, axis) == s.len() * v.comp(axis),
    decreases s.len(),
{
    if s.len() > 0 {
        lemma_axis_sum_constant(s.drop_last(), v, axis);
        assert(s.last() == s[s.len() - 1]);
        assert((s.len() - 1) * v.comp(axis) + v.comp(axis) == s.len() * v.comp(axis))
            by (nonlinear_arith);
    }
}

/// The gyroscope offset of a non-empty sequence whose samples all equal `v`
/// is exactly `v`.
pub proof fn lemma_gyro_offset_of_constant(s: Seq<Vec3>, v: Vec3)
    requires
        s.len() > 0,
        forall|i: int| 0 <= i < s.len() ==> #[trigger] s[i] == v,
    ensures
        vec_is(v, axis_mean(s, 0), axis_mean(s, 1), axis_mean(s, 2)),
{
    let n = s.len() as int;
    lemma_axis_sum_constant(s, v, 0);
    lemma_axis_sum_constant(s, v, 1);
    lemma_axis_sum_constant(s, v, 2);
    lemma_round_exact(v.x as int, n);
    lemma_round_exact(v.y as int, n);
    lemma_round_exact(v.z as int, n);
}

/// The readings on `axis` are `c − b` (positive lobe), `−c − b` (negative lobe)
/// or lie outside both lobes.
pub open spec fn two_level_axis(s: Seq<Vec3>, axis: int, c: int, b: int) -> bool {
    forall|i: int|
        0 <= i < s.len() ==> {
            let v = #[trigger] s[i].comp(axis);
            v == c - b || v == -c - b || (!in_lobe(v, true) && !in_lobe(v, false))
        }
}

proof fn lemma_two_level_lobes(s: Seq<Vec3>, axis: int, c: int, b: int)
    requires
        two_level_axis(s, axis, c, b),
        in_lobe(c - b, true),
        in_lobe(-c - b, false),
    ensures
        lobe_sum(s, axis, true) == lobe_count(s, axis, true) * (c - b),
        lobe_sum(s, axis, false) == lobe_count(s, axis, false) * (-c - b),
        (exists|i: int| 0 <= i < s.len() && #[trigger] s[i].comp(axis) == c - b) ==> lobe_count(
            s,
            axis,
            true,
        ) > 0,
        (exists|i: int| 0 <= i < s.len() && #[trigger] s[i].comp(axis) == -c - b)
            ==> lobe_count(s, axis, false) > 0,
    decreases s.len(),
{
    if s.len() > 0 {
        let t = s.drop_last();
        assert forall|i: int| 0 <= i < t.len() implies {
            let v = #[trigger] t[i].comp(axis);
            v == c - b || v == -c - b || (!in_lobe(v, true) && !in_lobe(v, false))
        } by {
            assert(t[i] == s[i]);
        }
        lemma_two_level_lobes(t, axis, c, b);
        assert(s.last() == s[s.len() - 1]);
        let v = s[s.len() - 1].comp(axis);
        assert(v == c - b || v == -c - b || (!in_lobe(v, true) && !in_lobe(v, false)));
        let cp = lobe_count(t, axis, true) as int;
        let cn = lobe_count(t, axis, false) as int;
        assert(cp * (c - b) + (c - b) == (cp + 1) * (c - b)) by (nonlinear_arith);
        assert(cn * (-c - b) + (-c - b) == (cn + 1) * (-c - b)) by (nonlinear_arith);
        assert(lobe_sum(t, axis, true) == cp * (c - b));
        if in_lobe(v, true) {
            assert(v == c - b);
            assert(lobe_sum(s, axis, true) == lobe_sum(t, axis, true) + v);
            assert(lobe_count(s, axis, true) == cp + 1);
        } else {
            assert(lobe_sum(s, axis, true) == lobe_sum(t, axis, true));
            assert(lobe_count(s, axis, true) == cp);
        }
        if in_lobe(v, false) {
            assert(v == -c - b);
            assert(lobe_sum(s, axis, false) == lobe_sum(t, axis, false) + v);
            assert(lobe_count(s, axis, false) == cn + 1);
        } else {
            assert(lobe_sum(s, axis, false) == lobe_sum(t, axis, false));
            assert(lobe_count(s, axis, false) == cn);
        }
        assert(lobe_sum(s, axis, true) == lobe_count(s, axis, true) * (c - b));
        assert(lobe_sum(s, axis, false) == lobe_count(s, axis, false) * (-c - b));
        if exists|i: int| 0 <= i < s.len() && #[trigger] s[i].comp(axis) == c - b {
            let i = choose|i: int| 0 <= i < s.len() && #[trigger] s[i].comp(axis) == c - b;
            if i < s.len() - 1 {
                assert(t[i].comp(axis) == c - b);
            }
        }
        if exists|i: int| 0 <= i < s.len() && #[trigger] s[i].comp(axis) == -c - b {
            let i = choose|i: int| 0 <= i < s.len() && #[trigger] s[i].comp(axis) == -c - b;
            if i < s.len() - 1 {
                assert(t[i].comp(axis) == -c - b);
            }
        }
    } else {
        assert(lobe_count(s, axis, true) == 0);
        assert(lobe_count(s, axis, false) == 0);
    }
}

/// Accelerometer readings made of two constant lobes: when every reading on
/// `axis` is `c − b` (true value `g₀` seen through scale and bias), `−c − b`
/// (true value `−g₀`) or lies outside both lobes, and both lobe values occur,
/// the offset on that axis recovers the bias `b` exactly and the scale is
/// `g₀ / c` in millionths, rounded down.
pub proof fn lemma_acc_two_level_lobes(s: Seq<Vec3>, axis: int, c: int, b: int)
    requires
        two_level_axis(s, axis, c, b),
        in_lobe(c - b, true),
        in_lobe(-c - b, false),
        exists|i: int| 0 <= i < s.len() && #[trigger] s[i].comp(axis) == c - b,
        exists|i: int| 0 <= i < s.len() && #[trigger] s[i].comp(axis) == -c - b,
    ensures
        lobe_count(s, axis, true) > 0,
        lobe_count(s, axis, false) > 0,
        acc_offset_axis(s, axis) == b,
        acc_scale_axis(s, axis) == (G0 * UNIT) / c,
{
    lemma_two_level_lobes(s, axis, c, b);
    let cp = lobe_count(s, axis, true) as int;
    let cn = lobe_count(s, axis, false) as int;
    lemma_round_exact(c - b, cp);
    lemma_round_exact(-c - b, cn);
    lemma_round_exact(b, 2);
    assert(-((c - b) + (-c - b)) == 2 * b);
    assert(lobe_mean(s, axis, true) == c - b);
    assert(lobe_mean(s, axis, false) == -c - b);
    let x = G0 * UNIT;
    assert(c > 0);
    vstd::arithmetic::div_mod::lemma_fundamental_div_mod(x, c);
    let q = x / c;
    let r = x % c;
    assert(2 * x == q * (2 * c) + 2 * r) by (nonlinear_arith)
        requires x == c * q + r;
    vstd::arithmetic::div_mod::lemma_fundamental_div_mod_converse(2 * x, 2 * c, q, 2 * r);
}

} // verus!
