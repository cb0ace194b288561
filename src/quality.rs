use vstd::prelude::*;

use crate::vector::{
    div_floor, int_sqrt, isqrt, lemma_div_between, within, Vec3, COMPONENT_LIMIT,
    UNIT,
};

verus! {

/// Number of regions that partition the unit sphere.
pub const REGION_COUNT: usize = 100;

/// Sine, in millionths, of the latitude 1.37046 rad above which a direction
/// lies in a polar cap.
pub const SIN_CAP: i64 = 980_000;

/// Sine, in millionths, of the latitude 0.74776 rad that separates the
/// temperate and tropic bands.
pub const SIN_TEMPERATE: i64 = 679_998;

/// Vertical component, in millionths, of the temperate regions' ideal directions.
pub const TEMPERATE_Z: i64 = 871_920;

/// Vertical component, in millionths, of the tropic regions' ideal directions.
pub const TROPIC_Z: i64 = 365_230;

/// Most magnetometer samples that a scorer accepts.
pub const MAX_QUALITY_SAMPLES: usize = 1_073_741_824;

/// Largest magnitude of an in-range sample, in micro-units (2⁴¹).
pub const MAG_LIMIT: u64 = 2_199_023_255_552;

/// 100 %, the worst wobble, in millionths of a percent.
pub const WORST_WOBBLE: u128 = 100_000_000;

/// The direction `(x, y)`, its angle taken in `(0, 2π]`, has an angle in
/// `(0, π]`: the positive x axis counts as angle 2π.
pub open spec fn upper_half(x: int, y: int) -> bool {
    y > 0 || (y == 0 && x < 0)
}

/// The direction `(ux, uy)` has an angle in `(0, 2π]` at least that of the
/// boundary direction `d`, which is not the positive x axis.
pub open spec fn at_or_past(ux: int, uy: int, d: (int, int)) -> bool {
    let cross = d.0 * uy - d.1 * ux;
    if upper_half(d.0, d.1) {
        !upper_half(ux, uy) || cross >= 0
    } else {
        !upper_half(ux, uy) && cross >= 0
    }
}

/// Boundary direction `m` of a band of `k` sectors (15 or 34).
pub open spec fn boundary(k: int, m: int) -> (int, int) {
    if k == 15 {
        boundary_15(m)
    } else {
        boundary_34(m)
    }
}

/// Number of the boundaries `1..=m` of a band of `k` sectors that the
/// direction `(ux, uy)` is at or past.
pub open spec fn boundaries_passed(ux: int, uy: int, k: int, m: int) -> int
    decreases m,
{
    if m <= 0 {
        0
    } else {
        boundaries_passed(ux, uy, k, m - 1) + if at_or_past(ux, uy, boundary(k, m)) {
            1int
        } else {
            0int
        }
    }
}

/// Longitude sector, among `k`, of a horizontal direction `(ux, uy)`: sector
/// `j` spans the angles `[2πj/k, 2π(j+1)/k)` of `(0, 2π]`, the last sector
/// taking the angle 2π as well.
pub open spec fn sector(ux: int, uy: int, k: int) -> int {
    boundaries_passed(ux, uy, k, k - 1)
}

/// Region of the sphere that the direction of `p` falls in: 0 is the arctic
/// cap, 1–15 the upper temperate band, 16–49 the upper tropic band, 50–83 the
/// lower tropic band, 84–98 the lower temperate band and 99 the antarctic cap.
/// The latitude bands compare `z²` with `sin²` of the band limits times `|p|²`;
/// the longitude is the angle of `(−x, −y)` in `(0, 2π]`, which is
/// `atan2(y, x) + π`. The zero vector lies in region 0.
pub open spec fn region_of(p: Vec3) -> int {
    let r2 = p.x * p.x + p.y * p.y + p.z * p.z;
    let z2 = 1_000_000_000_000 * (p.z * p.z);
    if r2 == 0 {
        0
    } else if p.z > 0 && z2 > SIN_CAP * SIN_CAP * r2 {
        0
    } else if p.z < 0 && z2 > SIN_CAP * SIN_CAP * r2 {
        99
    } else if z2 > SIN_TEMPERATE * SIN_TEMPERATE * r2 {
        sector(-p.x, -p.y, 15) + if p.z > 0 {
            1int
        } else {
            84int
        }
    } else {
        sector(-p.x, -p.y, 34) + if p.z >= 0 {
            16int
        } else {
            50int
        }
    }
}

proof fn lemma_boundaries_passed_bound(ux: int, uy: int, k: int, m: int)
    requires
        m >= 0,
    ensures
        0 <= boundaries_passed(ux, uy, k, m) <= m,
    decreases m,
{
    if m > 0 {
        lemma_boundaries_passed_bound(ux, uy, k, m - 1);
    }
}

/// Longitude sector, among `k` (15 or 34), of the horizontal direction `(ux, uy)`.
fn sector_of(ux: i64, uy: i64, k: usize) -> (r: usize)
    requires
        k == 15 || k == 34,
        within(ux as int, 0x200_0000_0000int),
        within(uy as int, 0x200_0000_0000int),
    ensures
        r == sector(ux as int, uy as int, k as int),
        r < k,
{
    let upper_u = uy > 0 || (uy == 0 && ux < 0);
    let mut count: usize = 0;
    let mut m: usize = 1;
    while m < k
        invariant
            1 <= m <= k,
            k == 15 || k == 34,
            within(ux as int, 0x200_0000_0000int),
            within(uy as int, 0x200_0000_0000int),
            upper_u == upper_half(ux as int, uy as int),
            count == boundaries_passed(ux as int, uy as int, k as int, m - 1),
            count <= m - 1,
        decreases k - m,
    {
        let (c, s) = if k == 15 {
            boundary_15_of(m)
        } else {
            boundary_34_of(m)
        };
        proof {
            assert(within(c * uy, 0x200_0000_0000int * 1_000_000)) by (nonlinear_arith)
                requires within(c as int, 1_000_000), within(uy as int, 0x200_0000_0000int);
            assert(within(s * ux, 0x200_0000_0000int * 1_000_000)) by (nonlinear_arith)
                requires within(s as int, 1_000_000), within(ux as int, 0x200_0000_0000int);
        }
        let cross = (c as i128) * (uy as i128) - (s as i128) * (ux as i128);
        let upper_d = s > 0 || (s == 0 && c < 0);
        let past = if upper_d {
            !upper_u || cross >= 0
        } else {
            !upper_u && cross >= 0
        };
        if past {
            count = count + 1;
        }
        m = m + 1;
    }
    proof {
        lemma_boundaries_passed_bound(ux as int, uy as int, k as int, k - 1);
    }
    count
}

/// Region of the sphere that the direction of `p` falls in; every point maps
/// to a region.
pub fn sphere_region(p: &Vec3) -> (r: usize)
    requires
        p.in_range(),
    ensures
        r == region_of(*p),
        r < REGION_COUNT,
{
    let ghost l = 0x100_0000_0000int;
    proof {
        assert(0 <= p.x * p.x <= l * l) by (nonlinear_arith)
            requires -l <= p.x <= l;
        assert(0 <= p.y * p.y <= l * l) by (nonlinear_arith)
            requires -l <= p.y <= l;
        assert(0 <= p.z * p.z <= l * l) by (nonlinear_arith)
            requires -l <= p.z <= l;
    }
    let x = p.x as i128;
    let y = p.y as i128;
    let z = p.z as i128;
    let r2 = x * x + y * y + z * z;
    let z2 = 1_000_000_000_000 * (z * z);
    let cap = (SIN_CAP as i128) * (SIN_CAP as i128);
    let temperate = (SIN_TEMPERATE as i128) * (SIN_TEMPERATE as i128);
    assert(cap == SIN_CAP * SIN_CAP);
    assert(temperate == SIN_TEMPERATE * SIN_TEMPERATE);
    proof {
        assert(0 <= cap * r2 <= 1_000_000_000_000 * (3 * (l * l))) by (nonlinear_arith)
            requires 0 <= cap <= 1_000_000_000_000, 0 <= r2 <= 3 * (l * l);
        assert(0 <= temperate * r2 <= 1_000_000_000_000 * (3 * (l * l))) by (nonlinear_arith)
            requires 0 <= temperate <= 1_000_000_000_000, 0 <= r2 <= 3 * (l * l);
    }
    if r2 == 0 {
        0
    } else if p.z > 0 && z2 > cap * r2 {
        0
    } else if p.z < 0 && z2 > cap * r2 {
        99
    } else if z2 > temperate * r2 {
        let b = sector_of(-p.x, -p.y, 15);
        if p.z > 0 {
            b + 1
        } else {
            b + 84
        }
    } else {
        let b = sector_of(-p.x, -p.y, 34);
        if p.z >= 0 {
            b + 16
        } else {
            b + 50
        }
    }
}

/// Boundary direction `m` (1 ≤ m < 15) between longitude sectors of a band of
/// 15: `(cos, sin)` of `2πm/15` in millionths.
pub open spec fn boundary_15(m: int) -> (int, int) {
    if m == 1 {
        (913545, 406737)
    } else if m == 2 {
        (669131, 743145)
    } else if m == 3 {
        (309017, 951057)
    } else if m == 4 {
        (-104528, 994522)
    } else if m == 5 {
        (-500000, 866025)
    } else if m == 6 {
        (-809017, 587785)
    } else if m == 7 {
        (-978148, 207912)
    } else if m == 8 {
        (-978148, -207912)
    } else if m == 9 {
        (-809017, -587785)
    } else if m == 10 {
        (-500000, -866025)
    } else if m == 11 {
        (-104528, -994522)
    } else if m == 12 {
        (309017, -951057)
    } else if m == 13 {
        (669131, -743145)
    } else {
        (913545, -406737)
    }
}

/// Boundary direction `m` (1 ≤ m < 34) between longitude sectors of a band of
/// 34: `(cos, sin)` of `2πm/34` in millionths.
pub open spec fn boundary_34(m: int) -> (int, int) {
    if m == 1 {
        (982973, 183750)
    } else if m == 2 {
        (932472, 361242)
    } else if m == 3 {
        (850217, 526432)
    } else if m == 4 {
        (739009, 673696)
    } else if m == 5 {
        (602635, 798017)
    } else if m == 6 {
        (445738, 895163)
    } else if m == 7 {
        (273663, 961826)
    } else if m == 8 {
        (92268, 995734)
    } else if m == 9 {
        (-92268, 995734)
    } else if m == 10 {
        (-273663, 961826)
    } else if m == 11 {
        (-445738, 895163)
    } else if m == 12 {
        (-602635, 798017)
    } else if m == 13 {
        (-739009, 673696)
    } else if m == 14 {
        (-850217, 526432)
    } else if m == 15 {
        (-932472, 361242)
    } else if m == 16 {
        (-982973, 183750)
    } else if m == 17 {
        (-1000000, 0)
    } else if m == 18 {
        (-982973, -183750)
    } else if m == 19 {
        (-932472, -361242)
    } else if m == 20 {
        (-850217, -526432)
    } else if m == 21 {
        (-739009, -673696)
    } else if m == 22 {
        (-602635, -798017)
    } else if m == 23 {
        (-445738, -895163)
    } else if m == 24 {
        (-273663, -961826)
    } else if m == 25 {
        (-92268, -995734)
    } else if m == 26 {
        (92268, -995734)
    } else if m == 27 {
        (273663, -961826)
    } else if m == 28 {
        (445738, -895163)
    } else if m == 29 {
        (602635, -798017)
    } else if m == 30 {
        (739009, -673696)
    } else if m == 31 {
        (850217, -526432)
    } else if m == 32 {
        (932472, -361242)
    } else {
        (982973, -183750)
    }
}

/// Table of `boundary_15`.
fn boundary_15_of(m: usize) -> (r: (i64, i64))
    requires
        1 <= m < 15,
    ensures
        r.0 == boundary_15(m as int).0,
        r.1 == boundary_15(m as int).1,
        -1_000_000 <= r.0 <= 1_000_000,
        -1_000_000 <= r.1 <= 1_000_000,
{
    match m {
        1 => (913545, 406737),
        2 => (669131, 743145),
        3 => (309017, 951057),
        4 => (-104528, 994522),
        5 => (-500000, 866025),
        6 => (-809017, 587785),
        7 => (-978148, 207912),
        8 => (-978148, -207912),
        9 => (-809017, -587785),
        10 => (-500000, -866025),
        11 => (-104528, -994522),
        12 => (309017, -951057),
        13 => (669131, -743145),
        _ => (913545, -406737),
    }
}

/// Table of `boundary_34`.
fn boundary_34_of(m: usize) -> (r: (i64, i64))
    requires
        1 <= m < 34,
    ensures
        r.0 == boundary_34(m as int).0,
        r.1 == boundary_34(m as int).1,
        -1_000_000 <= r.0 <= 1_000_000,
        -1_000_000 <= r.1 <= 1_000_000,
{
    match m {
        1 => (982973, 183750),
        2 => (932472, 361242),
        3 => (850217, 526432),
        4 => (739009, 673696),
        5 => (602635, 798017),
        6 => (445738, 895163),
        7 => (273663, 961826),
        8 => (92268, 995734),
        9 => (-92268, 995734),
        10 => (-273663, 961826),
        11 => (-445738, 895163),
        12 => (-602635, 798017),
        13 => (-739009, 673696),
        14 => (-850217, 526432),
        15 => (-932472, 361242),
        16 => (-982973, 183750),
        17 => (-1000000, 0),
        18 => (-982973, -183750),
        19 => (-932472, -361242),
        20 => (-850217, -526432),
        21 => (-739009, -673696),
        22 => (-602635, -798017),
        23 => (-445738, -895163),
        24 => (-273663, -961826),
        25 => (-92268, -995734),
        26 => (92268, -995734),
        27 => (273663, -961826),
        28 => (445738, -895163),
        29 => (602635, -798017),
        30 => (739009, -673696),
        31 => (850217, -526432),
        32 => (932472, -361242),
        _ => (982973, -183750),
    }
}

/// Horizontal components, in millionths, of the ideal direction of bin `j` of
/// a temperate ring (latitude ±1.05911 rad, 15 bins).
pub open spec fn temperate_ring(j: int) -> (int, int) {
    if j == 0 {
        (-478948, -101804)
    } else if j == 1 {
        (-396134, -287808)
    } else if j == 2 {
        (-244824, -424048)
    } else if j == 3 {
        (-51182, -486966)
    } else if j == 4 {
        (151310, -465683)
    } else if j == 5 {
        (327639, -363880)
    } else if j == 6 {
        (447316, -199158)
    } else if j == 7 {
        (489648, 0)
    } else if j == 8 {
        (447316, 199158)
    } else if j == 9 {
        (327639, 363880)
    } else if j == 10 {
        (151310, 465683)
    } else if j == 11 {
        (-51182, 486966)
    } else if j == 12 {
        (-244824, 424048)
    } else if j == 13 {
        (-396134, 287808)
    } else {
        (-478948, 101804)
    }
}

/// Horizontal components, in millionths, of the ideal direction of bin `j` of
/// a tropic ring (latitude ±0.37388 rad, 34 bins).
pub open spec fn tropic_ring(j: int) -> (int, int) {
    if j == 0 {
        (-926946, -85894)
    } else if j == 1 {
        (-895380, -254758)
    } else if j == 2 {
        (-833323, -414946)
    } else if j == 3 {
        (-742888, -561003)
    } else if j == 4 {
        (-627155, -687956)
    } else if j == 5 {
        (-490065, -791482)
    } else if j == 6 {
        (-336286, -868054)
    } else if j == 7 {
        (-171056, -915067)
    } else if j == 8 {
        (0, -930917)
    } else if j == 9 {
        (171056, -915067)
    } else if j == 10 {
        (336286, -868054)
    } else if j == 11 {
        (490065, -791482)
    } else if j == 12 {
        (627155, -687956)
    } else if j == 13 {
        (742888, -561003)
    } else if j == 14 {
        (833323, -414946)
    } else if j == 15 {
        (895380, -254758)
    } else if j == 16 {
        (926946, -85894)
    } else if j == 17 {
        (926946, 85894)
    } else if j == 18 {
        (895380, 254758)
    } else if j == 19 {
        (833323, 414946)
    } else if j == 20 {
        (742888, 561003)
    } else if j == 21 {
        (627155, 687956)
    } else if j == 22 {
        (490065, 791482)
    } else if j == 23 {
        (336286, 868054)
    } else if j == 24 {
        (171056, 915067)
    } else if j == 25 {
        (0, 930917)
    } else if j == 26 {
        (-171056, 915067)
    } else if j == 27 {
        (-336286, 868054)
    } else if j == 28 {
        (-490065, 791482)
    } else if j == 29 {
        (-627155, 687956)
    } else if j == 30 {
        (-742888, 561003)
    } else if j == 31 {
        (-833323, 414946)
    } else if j == 32 {
        (-895380, 254758)
    } else {
        (-926946, 85894)
    }
}

/// Table of `temperate_ring`.
fn temperate_point(j: usize) -> (r: (i64, i64))
    requires
        j < 15,
    ensures
        r.0 == temperate_ring(j as int).0,
        r.1 == temperate_ring(j as int).1,
{
    match j {
        0 => (-478948, -101804),
        1 => (-396134, -287808),
        2 => (-244824, -424048),
        3 => (-51182, -486966),
        4 => (151310, -465683),
        5 => (327639, -363880),
        6 => (447316, -199158),
        7 => (489648, 0),
        8 => (447316, 199158),
        9 => (327639, 363880),
        10 => (151310, 465683),
        11 => (-51182, 486966),
        12 => (-244824, 424048),
        13 => (-396134, 287808),
        _ => (-478948, 101804),
    }
}

/// Table of `tropic_ring`.
fn tropic_point(j: usize) -> (r: (i64, i64))
    requires
        j < 34,
    ensures
        r.0 == tropic_ring(j as int).0,
        r.1 == tropic_ring(j as int).1,
{
    match j {
        0 => (-926946, -85894),
        1 => (-895380, -254758),
        2 => (-833323, -414946),
        3 => (-742888, -561003),
        4 => (-627155, -687956),
        5 => (-490065, -791482),
        6 => (-336286, -868054),
        7 => (-171056, -915067),
        8 => (0, -930917),
        9 => (171056, -915067),
        10 => (336286, -868054),
        11 => (490065, -791482),
        12 => (627155, -687956),
        13 => (742888, -561003),
        14 => (833323, -414946),
        15 => (895380, -254758),
        16 => (926946, -85894),
        17 => (926946, 85894),
        18 => (895380, 254758),
        19 => (833323, 414946),
        20 => (742888, 561003),
        21 => (627155, 687956),
        22 => (490065, 791482),
        23 => (336286, 868054),
        24 => (171056, 915067),
        25 => (0, 930917),
        26 => (-171056, 915067),
        27 => (-336286, 868054),
        28 => (-490065, 791482),
        29 => (-627155, 687956),
        30 => (-742888, 561003),
        31 => (-833323, 414946),
        32 => (-895380, 254758),
        _ => (-926946, 85894),
    }
}

/// Ideal unit direction, in millionths, at the centre of a region.
pub open spec fn ideal_direction(region: int) -> Vec3 {
    if region == 0 {
        Vec3 { x: 0, y: 0, z: 1_000_000 }
    } else if region <= 15 {
        ring_direction(temperate_ring(region - 1), TEMPERATE_Z as int)
    } else if region <= 49 {
        ring_direction(tropic_ring(region - 16), TROPIC_Z as int)
    } else if region <= 83 {
        ring_direction(tropic_ring(region - 50), -TROPIC_Z)
    } else if region <= 98 {
        ring_direction(temperate_ring(region - 84), -TEMPERATE_Z)
    } else {
        Vec3 { x: 0, y: 0, z: -1_000_000i64 }
    }
}

/// Direction with horizontal components `h` and vertical component `z`.
pub open spec fn ring_direction(h: (int, int), z: int) -> Vec3 {
    Vec3 { x: h.0 as i64, y: h.1 as i64, z: z as i64 }
}

/// Ideal unit direction, in millionths, at the centre of a region.
pub fn ideal_direction_of(region: usize) -> (r: Vec3)
    requires
        region < REGION_COUNT,
    ensures
        r == ideal_direction(region as int),
        within(r.x as int, UNIT as int),
        within(r.y as int, UNIT as int),
        within(r.z as int, UNIT as int),
{
    if region == 0 {
        Vec3 { x: 0, y: 0, z: 1_000_000 }
    } else if region <= 15 {
        let (x, y) = temperate_point(region - 1);
        Vec3 { x, y, z: TEMPERATE_Z }
    } else if region <= 49 {
        let (x, y) = tropic_point(region - 16);
        Vec3 { x, y, z: TROPIC_Z }
    } else if region <= 83 {
        let (x, y) = tropic_point(region - 50);
        Vec3 { x, y, z: -TROPIC_Z }
    } else if region <= 98 {
        let (x, y) = temperate_point(region - 84);
        Vec3 { x, y, z: -TEMPERATE_Z }
    } else {
        Vec3 { x: 0, y: 0, z: -1_000_000 }
    }
}

/// Running sum of the samples in one region.
pub type RegionSum = (i128, i128, i128);

/// Penalty, in millionths, of a region holding `n` samples: 1 for none,
/// 0.2 for one, 0.01 for two, 0 for three or more.
pub open spec fn gap_penalty(n: int) -> int {
    if n == 0 {
        1_000_000
    } else if n == 1 {
        200_000
    } else if n == 2 {
        10_000
    } else {
        0
    }
}

/// Sum of the penalties of the first `k` regions.
pub open spec fn gap_sum(counts: Seq<u64>, k: int) -> int
    decreases k,
{
    if k <= 0 {
        0
    } else {
        gap_sum(counts, k - 1) + gap_penalty(counts[k - 1] as int)
    }
}

/// Surface-gap error, in millionths: the penalties of all regions summed.
pub open spec fn surface_gap(counts: Seq<u64>) -> int {
    gap_sum(counts, counts.len() as int)
}

/// Sum of the first `k` magnitudes.
pub open spec fn magnitude_sum(m: Seq<u64>, k: int) -> int
    decreases k,
{
    if k <= 0 {
        0
    } else {
        magnitude_sum(m, k - 1) + m[k - 1]
    }
}

/// Mean magnitude, rounded down; 0 without samples.
pub open spec fn mean_magnitude(m: Seq<u64>) -> int {
    if m.len() == 0 {
        0
    } else {
        magnitude_sum(m, m.len() as int) / (m.len() as int)
    }
}

/// Sum of the squared deviations from `mean` of the first `k` magnitudes.
pub open spec fn deviation_sum(m: Seq<u64>, mean: int, k: int) -> int
    decreases k,
{
    if k <= 0 {
        0
    } else {
        deviation_sum(m, mean, k - 1) + (m[k - 1] - mean) * (m[k - 1] - mean)
    }
}

/// Magnitude-variance error in millionths of a percent:
/// `100 · stddev / mean`, each step rounded down; 0 while the mean is 0.
pub open spec fn variance_error(m: Seq<u64>) -> int {
    let mean = mean_magnitude(m);
    if mean == 0 {
        0
    } else {
        let variance = deviation_sum(m, mean, m.len() as int) / (m.len() as int);
        (int_sqrt(variance) * 100_000_000) / mean
    }
}

/// Offset of a non-empty region's mean sample from its ideal direction scaled
/// to `radius`.
pub open spec fn region_offset(counts: Seq<u64>, sums: Seq<RegionSum>, radius: int, i: int) -> (
    int,
    int,
    int,
) {
    let c = counts[i] as int;
    let s = sums[i];
    let d = ideal_direction(i);
    (
        (s.0 as int) / c - (d.x * radius) / (UNIT as int),
        (s.1 as int) / c - (d.y * radius) / (UNIT as int),
        (s.2 as int) / c - (d.z * radius) / (UNIT as int),
    )
}

/// Summed offsets of the non-empty regions among the first `k`, and their number.
pub open spec fn wobble_sum(counts: Seq<u64>, sums: Seq<RegionSum>, radius: int, k: int) -> (
    int,
    int,
    int,
    int,
)
    decreases k,
{
    if k <= 0 {
        (0, 0, 0, 0)
    } else {
        let prev = wobble_sum(counts, sums, radius, k - 1);
        if counts[k - 1] > 0 {
            let o = region_offset(counts, sums, radius, k - 1);
            (prev.0 + o.0, prev.1 + o.1, prev.2 + o.2, prev.3 + 1)
        } else {
            prev
        }
    }
}

/// Wobble error in millionths of a percent: `100 · |mean offset| / radius`,
/// each step rounded down; `WORST_WOBBLE` when no region holds a sample or the
/// mean magnitude is 0.
pub open spec fn wobble_error(counts: Seq<u64>, sums: Seq<RegionSum>, m: Seq<u64>) -> int {
    let radius = mean_magnitude(m);
    let w = wobble_sum(counts, sums, radius, REGION_COUNT as int);
    if w.3 == 0 || radius == 0 {
        WORST_WOBBLE as int
    } else {
        let ax = w.0 / w.3;
        let ay = w.1 / w.3;
        let az = w.2 / w.3;
        (int_sqrt(ax * ax + ay * ay + az * az) * 100_000_000) / radius
    }
}

/// What a quality scorer holds: per-region sample counts and sums, the
/// magnitude of every sample, and the three scores as last computed.
pub struct QualityView {
    pub counts: Seq<u64>,
    pub sums: Seq<RegionSum>,
    pub magnitudes: Seq<u64>,
    pub gap: u64,
    pub variance: u128,
    pub wobble: u128,
}

/// The per-region data and magnitudes satisfy the bounds that keep the
/// arithmetic exact.
pub open spec fn data_wf(counts: Seq<u64>, sums: Seq<RegionSum>, m: Seq<u64>) -> bool {
    &&& counts.len() == REGION_COUNT
    &&& sums.len() == REGION_COUNT
    &&& m.len() <= MAX_QUALITY_SAMPLES
    &&& forall|k: int| 0 <= k < m.len() ==> #[trigger] m[k] <= MAG_LIMIT
    &&& forall|i: int| 0 <= i < REGION_COUNT ==> #[trigger] counts[i] <= m.len()
    &&& forall|i: int|
        0 <= i < REGION_COUNT ==> {
            &&& within(#[trigger] sums[i].0 as int, counts[i] * COMPONENT_LIMIT)
            &&& within(sums[i].1 as int, counts[i] * COMPONENT_LIMIT)
            &&& within(sums[i].2 as int, counts[i] * COMPONENT_LIMIT)
        }
}

impl QualityView {
    /// Bounds hold and the stored scores are those of the current samples.
    pub open spec fn wf(self) -> bool {
        &&& data_wf(self.counts, self.sums, self.magnitudes)
        &&& self.gap == surface_gap(self.counts)
        &&& self.variance == variance_error(self.magnitudes)
        &&& self.wobble == wobble_error(self.counts, self.sums, self.magnitudes)
    }

    /// No sample recorded.
    pub open spec fn is_empty(self) -> bool {
        &&& self.magnitudes.len() == 0
        &&& self.counts.len() == REGION_COUNT
        &&& self.sums.len() == REGION_COUNT
        &&& forall|i: int| 0 <= i < REGION_COUNT ==> #[trigger] self.counts[i] == 0
        &&& forall|i: int| 0 <= i < REGION_COUNT ==> #[trigger] self.sums[i] == (0i128, 0i128, 0i128)
    }
}

proof fn lemma_gap_bound(counts: Seq<u64>, k: int)
    requires
        0 <= k <= counts.len(),
    ensures
        0 <= gap_sum(counts, k) <= k * 1_000_000,
    decreases k,
{
    if k > 0 {
        lemma_gap_bound(counts, k - 1);
    }
}

fn gap_of(counts: &Vec<u64>) -> (r: u64)
    requires
        counts@.len() == REGION_COUNT,
    ensures
        r == surface_gap(counts@),
{
    let mut acc: u64 = 0;
    let mut i: usize = 0;
    while i < REGION_COUNT
        invariant
            counts@.len() == REGION_COUNT,
            i <= REGION_COUNT,
            acc == gap_sum(counts@, i as int),
        decreases REGION_COUNT - i,
    {
        proof {
            lemma_gap_bound(counts@, i as int);
        }
        let n = counts[i];
        let p: u64 = if n == 0 {
            1_000_000
        } else if n == 1 {
            200_000
        } else if n == 2 {
            10_000
        } else {
            0
        };
        acc = acc + p;
        i += 1;
    }
    acc
}

proof fn lemma_magnitude_sum_bound(m: Seq<u64>, k: int)
    requires
        0 <= k <= m.len(),
        forall|j: int| 0 <= j < m.len() ==> #[trigger] m[j] <= MAG_LIMIT,
    ensures
        0 <= magnitude_sum(m, k) <= k * MAG_LIMIT,
    decreases k,
{
    if k > 0 {
        lemma_magnitude_sum_bound(m, k - 1);
    }
}

proof fn lemma_deviation_sum_bound(m: Seq<u64>, mean: int, k: int)
    requires
        0 <= k <= m.len(),
        0 <= mean <= MAG_LIMIT,
        forall|j: int| 0 <= j < m.len() ==> #[trigger] m[j] <= MAG_LIMIT,
    ensures
        0 <= deviation_sum(m, mean, k) <= k * 0x4_0000_0000_0000_0000_0000int,
    decreases k,
{
    if k > 0 {
        lemma_deviation_sum_bound(m, mean, k - 1);
        let d = m[k - 1] - mean;
        assert(0 <= d * d <= 0x4_0000_0000_0000_0000_0000int) by (nonlinear_arith)
            requires -0x200_0000_0000int <= d <= 0x200_0000_0000int;
    }
}

/// Mean magnitude, rounded down; 0 without samples.
fn mean_of(m: &Vec<u64>) -> (r: u64)
    requires
        m@.len() <= MAX_QUALITY_SAMPLES,
        forall|j: int| 0 <= j < m@.len() ==> #[trigger] m@[j] <= MAG_LIMIT,
    ensures
        r == mean_magnitude(m@),
        r <= MAG_LIMIT,
{
    let n = m.len();
    if n == 0 {
        return 0;
    }
    let mut sum: u128 = 0;
    let mut i: usize = 0;
    while i < n
        invariant
            n == m@.len(),
            n <= MAX_QUALITY_SAMPLES,
            forall|j: int| 0 <= j < m@.len() ==> #[trigger] m@[j] <= MAG_LIMIT,
            i <= n,
            sum == magnitude_sum(m@, i as int),
        decreases n - i,
    {
        proof {
            lemma_magnitude_sum_bound(m@, i as int);
        }
        sum = sum + m[i] as u128;
        i += 1;
    }
    proof {
        lemma_magnitude_sum_bound(m@, n as int);
        lemma_div_between(sum as int, n as int, 0, MAG_LIMIT as int);
    }
    (sum / (n as u128)) as u64
}

fn variance_of(m: &Vec<u64>) -> (r: u128)
    requires
        m@.len() <= MAX_QUALITY_SAMPLES,
        forall|j: int| 0 <= j < m@.len() ==> #[trigger] m@[j] <= MAG_LIMIT,
    ensures
        r == variance_error(m@),
{
    let n = m.len();
    let mean = mean_of(m);
    if mean == 0 {
        return 0;
    }
    let mut dev: u128 = 0;
    let mut i: usize = 0;
    while i < n
        invariant
            n == m@.len(),
            n <= MAX_QUALITY_SAMPLES,
            forall|j: int| 0 <= j < m@.len() ==> #[trigger] m@[j] <= MAG_LIMIT,
            0 < mean <= MAG_LIMIT,
            i <= n,
            dev == deviation_sum(m@, mean as int, i as int),
        decreases n - i,
    {
        proof {
            lemma_deviation_sum_bound(m@, mean as int, i as int);
            lemma_deviation_sum_bound(m@, mean as int, i + 1);
        }
        let d = (m[i] as i128) - (mean as i128);
        assert(0 <= d * d <= 0x4_0000_0000_0000_0000_0000int) by (nonlinear_arith)
            requires -0x200_0000_0000int <= d <= 0x200_0000_0000int;
        dev = dev + (d * d) as u128;
        i += 1;
    }
    proof {
        lemma_deviation_sum_bound(m@, mean as int, n as int);
        lemma_div_between(dev as int, n as int, 0, 0x4_0000_0000_0000_0000_0000int);
    }
    let variance = dev / (n as u128);
    let sd = isqrt(variance);
    assert(sd <= 0x200_0000_0000int) by (nonlinear_arith)
        requires
            sd * sd <= variance,
            variance <= 0x4_0000_0000_0000_0000_0000int,
            sd >= 0,
    ;
    (sd as u128) * 100_000_000 / (mean as u128)
}

fn wobble_of(counts: &Vec<u64>, sums: &Vec<RegionSum>, m: &Vec<u64>) -> (r: u128)
    requires
        data_wf(counts@, sums@, m@),
    ensures
        r == wobble_error(counts@, sums@, m@),
{
    let radius = mean_of(m);
    let ghost rad = radius as int;
    let ghost b = 0x400_0000_0000int;
    let mut ax: i128 = 0;
    let mut ay: i128 = 0;
    let mut az: i128 = 0;
    let mut n: i128 = 0;
    let mut i: usize = 0;
    while i < REGION_COUNT
        invariant
            data_wf(counts@, sums@, m@),
            rad == mean_magnitude(m@),
            0 <= radius <= MAG_LIMIT,
            rad == radius,
            b == 0x400_0000_0000int,
            i <= REGION_COUNT,
            (ax as int, ay as int, az as int, n as int) == wobble_sum(
                counts@,
                sums@,
                rad,
                i as int,
            ),
            within(ax as int, i * b),
            within(ay as int, i * b),
            within(az as int, i * b),
            0 <= n <= i,
        decreases REGION_COUNT - i,
    {
        let c = counts[i];
        if c > 0 {
            let s = sums[i];
            let d = ideal_direction_of(i);
            proof {
                let l = COMPONENT_LIMIT as int;
                assert(within(sums@[i as int].0 as int, counts@[i as int] * l));
                assert(within(s.0 as int, c * l) && within(s.1 as int, c * l) && within(
                    s.2 as int,
                    c * l,
                ));
                assert(c * -l == -(c * l)) by (nonlinear_arith);
                lemma_div_between(s.0 as int, c as int, -l, l);
                lemma_div_between(s.1 as int, c as int, -l, l);
                lemma_div_between(s.2 as int, c as int, -l, l);
                assert(1_000_000 * -rad <= d.x * rad <= 1_000_000 * rad) by (nonlinear_arith)
                    requires -1_000_000 <= d.x <= 1_000_000, rad >= 0;
                assert(1_000_000 * -rad <= d.y * rad <= 1_000_000 * rad) by (nonlinear_arith)
                    requires -1_000_000 <= d.y <= 1_000_000, rad >= 0;
                assert(1_000_000 * -rad <= d.z * rad <= 1_000_000 * rad) by (nonlinear_arith)
                    requires -1_000_000 <= d.z <= 1_000_000, rad >= 0;
                lemma_div_between(d.x * rad, 1_000_000, -rad, rad);
                lemma_div_between(d.y * rad, 1_000_000, -rad, rad);
                lemma_div_between(d.z * rad, 1_000_000, -rad, rad);
                assert(within(d.x * rad, 0x1_0000_0000_0000_0000int)) by (nonlinear_arith)
                    requires -1_000_000 <= d.x <= 1_000_000, 0 <= rad <= 0x200_0000_0000int;
                assert(within(d.y * rad, 0x1_0000_0000_0000_0000int)) by (nonlinear_arith)
                    requires -1_000_000 <= d.y <= 1_000_000, 0 <= rad <= 0x200_0000_0000int;
                assert(within(d.z * rad, 0x1_0000_0000_0000_0000int)) by (nonlinear_arith)
                    requires -1_000_000 <= d.z <= 1_000_000, 0 <= rad <= 0x200_0000_0000int;
            }
            let ci = c as i128;
            let ox = div_floor(s.0, ci) - div_floor((d.x as i128) * (radius as i128), UNIT as i128);
            let oy = div_floor(s.1, ci) - div_floor((d.y as i128) * (radius as i128), UNIT as i128);
            let oz = div_floor(s.2, ci) - div_floor((d.z as i128) * (radius as i128), UNIT as i128);
            ax = ax + ox;
            ay = ay + oy;
            az = az + oz;
            n = n + 1;
        }
        i += 1;
    }
    if n == 0 || radius == 0 {
        return WORST_WOBBLE;
    }
    proof {
        let h = 100 * b;
        assert(n * -h <= ax && ax <= n * h && n * -h <= ay && ay <= n * h && n * -h <= az && az
            <= n * h) by (nonlinear_arith)
            requires
                n >= 1,
                h == 100 * b,
                b > 0,
                within(ax as int, 100 * b),
                within(ay as int, 100 * b),
                within(az as int, 100 * b),
        ;
        lemma_div_between(ax as int, n as int, -h, h);
        lemma_div_between(ay as int, n as int, -h, h);
        lemma_div_between(az as int, n as int, -h, h);
    }
    let mx = div_floor(ax, n);
    let my = div_floor(ay, n);
    let mz = div_floor(az, n);
    proof {
        let h = 0x1_9000_0000_0000int;
        assert(0 <= mx * mx <= h * h) by (nonlinear_arith)
            requires -h <= mx <= h;
        assert(0 <= my * my <= h * h) by (nonlinear_arith)
            requires -h <= my <= h;
        assert(0 <= mz * mz <= h * h) by (nonlinear_arith)
            requires -h <= mz <= h;
    }
    let norm2 = (mx * mx + my * my + mz * mz) as u128;
    let len = isqrt(norm2);
    assert(len <= 0x10_0000_0000_0000int) by (nonlinear_arith)
        requires
            len * len <= norm2,
            norm2 <= 3 * (0x1_9000_0000_0000int * 0x1_9000_0000_0000int),
            len >= 0,
    ;
    (len as u128) * 100_000_000 / (radius as u128)
}

/// Region sum after adding sample `p`.
pub open spec fn add_sample(s: RegionSum, p: Vec3) -> RegionSum {
    ((s.0 + p.x) as i128, (s.1 + p.y) as i128, (s.2 + p.z) as i128)
}

/// Coverage scorer for magnetometer samples: buckets each sample into one of
/// 100 regions of the sphere and keeps the surface-gap, magnitude-variance and
/// wobble errors current after every sample.
#[derive(Debug)]
pub struct Quality {
    sphere_dist: Vec<u64>,
    sphere_data: Vec<RegionSum>,
    magnitude: Vec<u64>,
    quality_gaps_buffer: u64,
    quality_variance_buffer: u128,
    quality_wobble_buffer: u128,
}

impl View for Quality {
    type V = QualityView;

    closed spec fn view(&self) -> QualityView {
        QualityView {
            counts: self.sphere_dist@,
            sums: self.sphere_data@,
            magnitudes: self.magnitude@,
            gap: self.quality_gaps_buffer,
            variance: self.quality_variance_buffer,
            wobble: self.quality_wobble_buffer,
        }
    }
}

fn zero_counts() -> (r: Vec<u64>)
    ensures
        r@.len() == REGION_COUNT,
        forall|i: int| 0 <= i < REGION_COUNT ==> #[trigger] r@[i] == 0,
{
    let mut v: Vec<u64> = Vec::new();
    let mut i: usize = 0;
    while i < REGION_COUNT
        invariant
            i <= REGION_COUNT,
            v@.len() == i,
            forall|j: int| 0 <= j < i ==> #[trigger] v@[j] == 0,
        decreases REGION_COUNT - i,
    {
        v.push(0);
        i += 1;
    }
    v
}

fn zero_sums() -> (r: Vec<RegionSum>)
    ensures
        r@.len() == REGION_COUNT,
        forall|i: int| 0 <= i < REGION_COUNT ==> #[trigger] r@[i] == (0i128, 0i128, 0i128),
{
    let mut v: Vec<RegionSum> = Vec::new();
    let mut i: usize = 0;
    while i < REGION_COUNT
        invariant
            i <= REGION_COUNT,
            v@.len() == i,
            forall|j: int| 0 <= j < i ==> #[trigger] v@[j] == (0i128, 0i128, 0i128),
        decreases REGION_COUNT - i,
    {
        v.push((0, 0, 0));
        i += 1;
    }
    v
}

impl Quality {
    /// Bounds hold and the stored scores are current.
    pub open spec fn wf(&self) -> bool {
        self@.wf()
    }

    /// A scorer without samples.
    pub fn new() -> (r: Quality)
        ensures
            r.wf(),
            r@.is_empty(),
            r@.wobble == WORST_WOBBLE,
            r@.gap == 100_000_000,
            r@.variance == 0,
    {
        let sphere_dist = zero_counts();
        let sphere_data = zero_sums();
        let magnitude: Vec<u64> = Vec::new();
        let gaps = gap_of(&sphere_dist);
        let variance = variance_of(&magnitude);
        let wobble = wobble_of(&sphere_dist, &sphere_data, &magnitude);
        let r = Quality {
            sphere_dist,
            sphere_data,
            magnitude,
            quality_gaps_buffer: gaps,
            quality_variance_buffer: variance,
            quality_wobble_buffer: wobble,
        };
        proof {
            lemma_empty_scores(r@);
        }
        r
    }

    /// Discards every sample.
    pub fn reset(&mut self)
        requires
            old(self).wf(),
        ensures
            final(self).wf(),
            final(self)@.is_empty(),
            final(self)@.wobble == WORST_WOBBLE,
            final(self)@.gap == 100_000_000,
            final(self)@.variance == 0,
    {
        *self = Quality::new();
    }

    /// Number of samples recorded.
    pub fn sample_count(&self) -> (r: usize)
        ensures
            r == self@.magnitudes.len(),
    {
        self.magnitude.len()
    }

    /// Records magnetometer sample `p` in the region of its direction, then
    /// recomputes the three errors.
    pub fn update(&mut self, p: Vec3)
        requires
            old(self).wf(),
            p.in_range(),
            old(self)@.magnitudes.len() < MAX_QUALITY_SAMPLES,
        ensures
            final(self).wf(),
            final(self)@.counts == old(self)@.counts.update(
                region_of(p),
                (old(self)@.counts[region_of(p)] + 1) as u64,
            ),
            final(self)@.sums == old(self)@.sums.update(
                region_of(p),
                add_sample(old(self)@.sums[region_of(p)], p),
            ),
            final(self)@.magnitudes == old(self)@.magnitudes.push(
                int_sqrt(p.x * p.x + p.y * p.y + p.z * p.z) as u64,
            ),
    {
        let ghost old_len = self@.magnitudes.len();
        proof {
            let l = 0x100_0000_0000int;
            assert(0 <= p.x * p.x <= l * l) by (nonlinear_arith)
                requires -l <= p.x <= l;
            assert(0 <= p.y * p.y <= l * l) by (nonlinear_arith)
                requires -l <= p.y <= l;
            assert(0 <= p.z * p.z <= l * l) by (nonlinear_arith)
                requires -l <= p.z <= l;
        }
        let norm2 = ((p.x as i128) * (p.x as i128) + (p.y as i128) * (p.y as i128) + (p.z as i128)
            * (p.z as i128)) as u128;
        let mag = isqrt(norm2);
        assert(mag <= MAG_LIMIT) by (nonlinear_arith)
            requires
                mag * mag <= norm2,
                norm2 <= 3 * (0x100_0000_0000int * 0x100_0000_0000int),
                mag >= 0,
        ;
        self.magnitude.push(mag);
        let region = sphere_region(&p);
        let c = self.sphere_dist[region];
        assert(self@.counts[region as int] <= old_len);
        self.sphere_dist.set(region, c + 1);
        let s = self.sphere_data[region];
        proof {
            let l = COMPONENT_LIMIT as int;
            assert(within(self@.sums[region as int].0 as int, self@.counts[region as int] * l));
        }
        self.sphere_data.set(region, (s.0 + p.x as i128, s.1 + p.y as i128, s.2 + p.z as i128));
        proof {
            assert forall|i: int| 0 <= i < REGION_COUNT implies #[trigger] self@.counts[i]
                <= self@.magnitudes.len() by {
                if i != region {
                    assert(old(self)@.counts[i] <= old_len);
                }
            }
            assert forall|k: int| 0 <= k < self@.magnitudes.len() implies #[trigger]
                self@.magnitudes[k] <= MAG_LIMIT by {
                if k < old_len {
                    assert(old(self)@.magnitudes[k] == self@.magnitudes[k]);
                }
            }
            assert forall|i: int| 0 <= i < REGION_COUNT implies {
                &&& within(#[trigger] self@.sums[i].0 as int, self@.counts[i] * COMPONENT_LIMIT)
                &&& within(self@.sums[i].1 as int, self@.counts[i] * COMPONENT_LIMIT)
                &&& within(self@.sums[i].2 as int, self@.counts[i] * COMPONENT_LIMIT)
            } by {
                assert(within(old(self)@.sums[i].0 as int, old(self)@.counts[i] * COMPONENT_LIMIT));
            }
            assert(self@.counts.len() == REGION_COUNT);
            assert(self@.sums.len() == REGION_COUNT);
            assert(self@.magnitudes.len() <= MAX_QUALITY_SAMPLES);
        }
        self.quality_variance_buffer = variance_of(&self.magnitude);
        self.quality_gaps_buffer = gap_of(&self.sphere_dist);
        self.quality_wobble_buffer = wobble_of(&self.sphere_dist, &self.sphere_data, &self.magnitude);
    }

    /// Surface-gap error of the current samples, in millionths.
    pub fn calc_surface_gap_error(&self) -> (r: u64)
        requires
            self.wf(),
        ensures
            r == surface_gap(self@.counts),
    {
        gap_of(&self.sphere_dist)
    }

    /// Magnitude-variance error of the current samples, in millionths of a percent.
    pub fn calc_magnitude_variance_error(&self) -> (r: u128)
        requires
            self.wf(),
        ensures
            r == variance_error(self@.magnitudes),
    {
        variance_of(&self.magnitude)
    }

    /// Wobble error of the current samples, in millionths of a percent.
    pub fn calc_wobble_error(&self) -> (r: u128)
        requires
            self.wf(),
        ensures
            r == wobble_error(self@.counts, self@.sums, self@.magnitudes),
    {
        wobble_of(&self.sphere_dist, &self.sphere_data, &self.magnitude)
    }

    /// Surface-gap error as of the last sample, in millionths.
    pub fn surface_gap_error(&self) -> (r: u64)
        requires
            self.wf(),
        ensures
            r == surface_gap(self@.counts),
    {
        self.quality_gaps_buffer
    }

    /// Magnitude-variance error as of the last sample, in millionths of a percent.
    pub fn magnitude_variance_error(&self) -> (r: u128)
        requires
            self.wf(),
        ensures
            r == variance_error(self@.magnitudes),
    {
        self.quality_variance_buffer
    }

    /// Wobble error as of the last sample, in millionths of a percent.
    pub fn wobble_error(&self) -> (r: u128)
        requires
            self.wf(),
        ensures
            r == wobble_error(self@.counts, self@.sums, self@.magnitudes),
    {
        self.quality_wobble_buffer
    }
}

impl Default for Quality {
    fn default() -> (r: Quality)
        ensures
            r.wf(),
            r@.is_empty(),
    {
        Quality::new()
    }
}

proof fn lemma_gap_all_empty(counts: Seq<u64>, k: int)
    requires
        0 <= k <= counts.len(),
        forall|i: int| 0 <= i < counts.len() ==> #[trigger] counts[i] == 0,
    ensures
        gap_sum(counts, k) == k * 1_000_000,
    decreases k,
{
    if k > 0 {
        lemma_gap_all_empty(counts, k - 1);
    }
}

proof fn lemma_wobble_all_empty(counts: Seq<u64>, sums: Seq<RegionSum>, radius: int, k: int)
    requires
        0 <= k <= counts.len(),
        forall|i: int| 0 <= i < counts.len() ==> #[trigger] counts[i] == 0,
    ensures
        wobble_sum(counts, sums, radius, k).3 == 0,
    decreases k,
{
    if k > 0 {
        lemma_wobble_all_empty(counts, sums, radius, k - 1);
    }
}

/// Without samples the gap error is 100 (every region empty), the variance
/// error 0 and the wobble error the worst value.
proof fn lemma_empty_scores(v: QualityView)
    requires
        v.is_empty(),
    ensures
        surface_gap(v.counts) == 100_000_000,
        variance_error(v.magnitudes) == 0,
        wobble_error(v.counts, v.sums, v.magnitudes) == WORST_WOBBLE,
{
    lemma_gap_all_empty(v.counts, 100);
    lemma_wobble_all_empty(v.counts, v.sums, mean_magnitude(v.magnitudes), 100);
}

proof fn lemma_gap_update(counts: Seq<u64>, r: int, k: int)
    requires
        0 <= r < counts.len(),
        0 <= k <= counts.len(),
        counts[r] < u64::MAX,
    ensures
        gap_sum(counts.update(r, (counts[r] + 1) as u64), k) == gap_sum(counts, k) - if r < k {
            gap_penalty(counts[r] as int) - gap_penalty(counts[r] + 1)
        } else {
            0
        },
    decreases k,
{
    if k > 0 {
        lemma_gap_update(counts, r, k - 1);
    }
}

/// Adding a sample to a region never increases the surface-gap error: it falls
/// by exactly the region's penalty at its old count less the penalty at the
/// new count.
pub proof fn lemma_gap_non_increasing(counts: Seq<u64>, region: int)
    requires
        0 <= region < counts.len(),
        counts[region] < u64::MAX,
    ensures
        surface_gap(counts.update(region, (counts[region] + 1) as u64)) == surface_gap(counts)
            - (gap_penalty(counts[region] as int) - gap_penalty(counts[region] + 1)),
        surface_gap(counts.update(region, (counts[region] + 1) as u64)) <= surface_gap(counts),
{
    lemma_gap_update(counts, region, counts.len() as int);
}

/// A scorer without samples reports the worst wobble error, 100 %.
pub proof fn lemma_wobble_without_samples(v: QualityView)
    requires
        data_wf(v.counts, v.sums, v.magnitudes),
        v.magnitudes.len() == 0,
    ensures
        wobble_error(v.counts, v.sums, v.magnitudes) == WORST_WOBBLE,
{
    assert forall|i: int| 0 <= i < v.counts.len() implies #[trigger] v.counts[i] == 0 by {
        assert(v.counts[i] <= v.magnitudes.len());
    }
    lemma_wobble_all_empty(v.counts, v.sums, mean_magnitude(v.magnitudes), 100);
}

} // verus!
