use vstd::prelude::*;

use crate::provider::{ImuData, MagData};
use crate::vector::{div_nearest, div_round, within, Vec3, COMPONENT_LIMIT};

verus! {

/// A reading decoded from one line of the serial protocol.
#[derive(Debug, Clone, Copy, PartialEq, Eq, Structural)]
pub enum Reading {
    Imu(ImuData),
    Mag(MagData),
}

/// An ASCII decimal digit.
pub open spec fn is_digit(b: u8) -> bool {
    48 <= b <= 57
}

/// Every byte is an ASCII decimal digit.
pub open spec fn all_digits(d: Seq<u8>) -> bool {
    forall|i: int| 0 <= i < d.len() ==> is_digit(#[trigger] d[i])
}

/// Value of a run of decimal digits.
pub open spec fn digits_value(d: Seq<u8>) -> int
    decreases d.len(),
{
    if d.len() == 0 {
        0
    } else {
        digits_value(d.drop_last()) * 10 + (d.last() - 48)
    }
}

/// Index of the first byte `c` in `s`, or `s.len()` when there is none.
pub open spec fn index_of(s: Seq<u8>, c: u8) -> int
    decreases s.len(),
{
    if s.len() == 0 {
        0
    } else if index_of(s.drop_last(), c) < s.len() - 1 {
        index_of(s.drop_last(), c)
    } else if s.last() == c {
        s.len() - 1
    } else {
        s.len() as int
    }
}

/// The fields of `s` separated by single spaces (`"a  b"` has an empty middle field).
pub open spec fn fields(s: Seq<u8>) -> Seq<Seq<u8>>
    decreases s.len(),
{
    if s.len() == 0 {
        seq![Seq::empty()]
    } else {
        let f = fields(s.drop_last());
        if s.last() == 32 {
            f.push(Seq::empty())
        } else {
            f.update(f.len() - 1, f.last().push(s.last()))
        }
    }
}

/// Ten to the power `n`.
pub open spec fn pow10(n: nat) -> int
    decreases n,
{
    if n == 0 {
        1
    } else {
        10 * pow10((n - 1) as nat)
    }
}

/// Most digits in a number's mantissa.
pub const MAX_MANTISSA_DIGITS: usize = 30;

/// Most digits in a number's exponent.
pub const MAX_EXPONENT_DIGITS: usize = 3;

/// Index of the exponent marker `e` or `E` in `t`, or `t.len()`.
pub open spec fn exponent_index(t: Seq<u8>) -> int {
    let a = index_of(t, 101);
    let b = index_of(t, 69);
    if a <= b {
        a
    } else {
        b
    }
}

/// Value of an exponent `[+|-]digits` of one to `MAX_EXPONENT_DIGITS` digits.
pub open spec fn exponent_value(x: Seq<u8>) -> Option<int> {
    let signed = x.len() > 0 && (x[0] == 45 || x[0] == 43);
    let d = if signed {
        x.skip(1)
    } else {
        x
    };
    if d.len() == 0 || d.len() > MAX_EXPONENT_DIGITS || !all_digits(d) {
        None
    } else if x[0] == 45 {
        Some(-digits_value(d))
    } else {
        Some(digits_value(d))
    }
}

/// A mantissa `digits[.digits]`, `.digits` or `digits.` (at least one and at
/// most `MAX_MANTISSA_DIGITS` digits) read as one integer, with the number of
/// digits after the point.
pub open spec fn mantissa_value(m: Seq<u8>) -> Option<(int, int)> {
    let k = index_of(m, 46);
    let d1 = m.take(k);
    let d2 = if k < m.len() {
        m.skip(k + 1)
    } else {
        Seq::<u8>::empty()
    };
    if !all_digits(d1) || !all_digits(d2) || d1.len() + d2.len() == 0 || d1.len() + d2.len()
        > MAX_MANTISSA_DIGITS {
        None
    } else {
        Some((digits_value(d1) * pow10(d2.len()) + digits_value(d2), d2.len() as int))
    }
}

/// `m · 10^s`, rounded to the nearest integer, halves upward, when `s < 0`.
pub open spec fn shift_round(m: int, s: int) -> int {
    if s >= 0 {
        m * pow10(s as nat)
    } else {
        div_round(m, pow10((-s) as nat))
    }
}

/// Value in micro-units of an unsigned decimal `mantissa[(e|E)exponent]`,
/// rounded to the nearest micro-unit, halves upward.
pub open spec fn unsigned_value(t: Seq<u8>) -> Option<int> {
    let ei = exponent_index(t);
    let e = if ei == t.len() {
        Some(0int)
    } else {
        exponent_value(t.skip(ei + 1))
    };
    match (mantissa_value(t.take(ei)), e) {
        (Some(mf), Some(e)) => Some(shift_round(mf.0, 6 + e - mf.1)),
        _ => None,
    }
}

/// Value in micro-units of a number field `[+|-]unsigned`, when it lies
/// within `COMPONENT_LIMIT`; halves round away from zero.
pub open spec fn number_value(t: Seq<u8>) -> Option<int> {
    let signed = t.len() > 0 && (t[0] == 45 || t[0] == 43);
    let body = if signed {
        t.skip(1)
    } else {
        t
    };
    match unsigned_value(body) {
        Some(v) => if v <= COMPONENT_LIMIT {
            Some(if t[0] == 45 {
                -v
            } else {
                v
            })
        } else {
            None
        },
        None => None,
    }
}

/// The vector of the number fields `f[k]`, `f[k + 1]`, `f[k + 2]`.
pub open spec fn vec_at(f: Seq<Seq<u8>>, k: int) -> Vec3 {
    Vec3 {
        x: number_value(f[k])->Some_0 as i64,
        y: number_value(f[k + 1])->Some_0 as i64,
        z: number_value(f[k + 2])->Some_0 as i64,
    }
}

/// Fields `lo` up to `hi` are numbers.
pub open spec fn numbers_between(f: Seq<Seq<u8>>, lo: int, hi: int) -> bool {
    forall|k: int| lo <= k < hi ==> (#[trigger] number_value(f[k])) is Some
}

/// The reading of a line `imu gx gy gz ax ay az\n` (gyroscope first) or
/// `mag x y z\n`, fields separated by single spaces; `None` for any other line.
pub open spec fn line_reading(line: Seq<u8>) -> Option<Reading> {
    if line.len() == 0 || line.last() != 10 {
        None
    } else {
        let f = fields(line.drop_last());
        if f.len() == 7 && f[0] == seq![105u8, 109u8, 117u8] && numbers_between(f, 1, 7) {
            Some(Reading::Imu(ImuData { ang_vel: vec_at(f, 1), lin_acc: vec_at(f, 4) }))
        } else if f.len() == 4 && f[0] == seq![109u8, 97u8, 103u8] && numbers_between(f, 1, 4) {
            Some(Reading::Mag(MagData { field: vec_at(f, 1) }))
        } else {
            None
        }
    }
}

/// Length of the first line in `buf`, its `\n` included, or `None` while no
/// line is complete.
pub fn find_line_end(buf: &[u8]) -> (r: Option<usize>)
    ensures
        r is None ==> forall|i: int| 0 <= i < buf@.len() ==> buf@[i] != 10,
        r is Some ==> {
            let n = r->Some_0 as int;
            &&& 1 <= n <= buf@.len()
            &&& buf@[n - 1] == 10
            &&& forall|i: int| 0 <= i < n - 1 ==> buf@[i] != 10
        },
{
    let mut i: usize = 0;
    while i < buf.len()
        invariant
            i <= buf@.len(),
            forall|j: int| 0 <= j < i ==> buf@[j] != 10,
        decreases buf@.len() - i,
    {
        if buf[i] == 10 {
            return Some(i + 1);
        }
        i += 1;
    }
    None
}

proof fn lemma_index_of(s: Seq<u8>, c: u8)
    ensures
        0 <= index_of(s, c) <= s.len(),
        forall|j: int| 0 <= j < index_of(s, c) ==> s[j] != c,
        index_of(s, c) < s.len() ==> s[index_of(s, c)] == c,
    decreases s.len(),
{
    if s.len() > 0 {
        lemma_index_of(s.drop_last(), c);
        assert forall|j: int| 0 <= j < s.len() - 1 implies s.drop_last()[j] == s[j] by {}
    }
}

/// The first index in `from..end` with byte `c`, or `end`.
fn scan_to(t: &[u8], from: usize, end: usize, c: u8) -> (r: usize)
    requires
        from <= end <= t@.len(),
    ensures
        r == from + index_of(t@.subrange(from as int, end as int), c),
        from <= r <= end,
{
    let mut k = from;
    while k < end && t[k] != c
        invariant
            from <= k <= end <= t@.len(),
            forall|j: int| from <= j < k ==> t@[j] != c,
        decreases end - k,
    {
        k += 1;
    }
    proof {
        let s = t@.subrange(from as int, end as int);
        lemma_index_of(s, c);
        let idx = index_of(s, c);
        if idx < k - from {
            assert(s[idx] == t@[from + idx]);
        }
        if idx > k - from {
            assert(s[k - from] == t@[k as int]);
        }
    }
    k
}

proof fn lemma_digits_nonneg(d: Seq<u8>)
    requires
        all_digits(d),
    ensures
        digits_value(d) >= 0,
    decreases d.len(),
{
    if d.len() > 0 {
        assert(all_digits(d.drop_last())) by {
            assert forall|i: int| 0 <= i < d.len() - 1 implies is_digit(#[trigger] d.drop_last()[i]) by {
                assert(d.drop_last()[i] == d[i]);
            }
        }
        lemma_digits_nonneg(d.drop_last());
        assert(is_digit(d[d.len() - 1]));
    }
}

proof fn lemma_pow10_mono(a: nat, b: nat)
    requires
        a <= b,
    ensures
        1 <= pow10(a) <= pow10(b),
    decreases b,
{
    if b > 0 {
        if a == b {
            lemma_pow10_mono(0, (b - 1) as nat);
        } else {
            lemma_pow10_mono(a, (b - 1) as nat);
        }
    }
}

/// A run of `n` digits has a value below `10ⁿ`.
proof fn lemma_digits_below(d: Seq<u8>)
    requires
        all_digits(d),
    ensures
        0 <= digits_value(d) < pow10(d.len()),
    decreases d.len(),
{
    if d.len() > 0 {
        assert(all_digits(d.drop_last())) by {
            assert forall|i: int| 0 <= i < d.len() - 1 implies is_digit(#[trigger] d.drop_last()[i]) by {
                assert(d.drop_last()[i] == d[i]);
            }
        }
        lemma_digits_below(d.drop_last());
        assert(is_digit(d[d.len() - 1]));
    }
}

proof fn lemma_pow10_values()
    ensures
        pow10(13) == 10_000_000_000_000,
        pow10(30) == 1_000_000_000_000_000_000_000_000_000_000,
        pow10(31) == 10_000_000_000_000_000_000_000_000_000_000,
        pow10(32) == 100_000_000_000_000_000_000_000_000_000_000,
{
    reveal_with_fuel(pow10, 33);
}

/// `10ⁿ` for `n <= 31`.
fn pow10_of(n: u32) -> (r: i128)
    requires
        n <= 31,
    ensures
        r == pow10(n as nat),
{
    let mut r: i128 = 1;
    let mut i: u32 = 0;
    while i < n
        invariant
            i <= n <= 31,
            r == pow10(i as nat),
        decreases n - i,
    {
        proof {
            lemma_pow10_mono(i as nat, 31);
            lemma_pow10_values();
        }
        r = r * 10;
        i += 1;
    }
    r
}

/// Value of the exponent `t[start..]`.
fn parse_exponent(t: &[u8], start: usize) -> (r: Option<i64>)
    requires
        start <= t@.len(),
    ensures
        exponent_value(t@.skip(start as int)) is None ==> r is None,
        exponent_value(t@.skip(start as int)) is Some ==> r == Some(
            exponent_value(t@.skip(start as int))->Some_0 as i64,
        ) && -999 <= exponent_value(t@.skip(start as int))->Some_0 <= 999,
{
    let ghost x = t@.skip(start as int);
    let n = t.len();
    if start == n {
        return None;
    }
    let signed = t[start] == 45 || t[start] == 43;
    assert(x[0] == t@[start as int]);
    let first = if signed {
        start + 1
    } else {
        start
    };
    let ghost d = if signed {
        x.skip(1)
    } else {
        x
    };
    assert(d =~= t@.skip(first as int));
    assert(d.len() == n - first);
    if first == n || n - first > MAX_EXPONENT_DIGITS {
        assert(exponent_value(x) is None);
        return None;
    }
    let mut v: i64 = 0;
    let mut j = first;
    proof {
        assert(d.take(0) =~= Seq::<u8>::empty());
    }
    while j < n
        invariant
            first <= j <= n,
            n == t@.len(),
            n - first <= 3,
            d =~= t@.skip(first as int),
            start < n,
            x == t@.skip(start as int),
            d == (if signed { x.skip(1) } else { x }),
            signed == (x.len() > 0 && (x[0] == 45 || x[0] == 43)),
            all_digits(d.take(j - first)),
            v == digits_value(d.take(j - first)),
            0 <= v < (if j - first == 0 { 1int } else if j - first == 1 { 10int } else if j - first
                == 2 { 100int } else { 1000int }),
        decreases n - j,
    {
        let b = t[j];
        proof {
            assert(d[j - first] == t@[j as int]);
            assert(d.take(j - first + 1).drop_last() =~= d.take(j - first));
            assert(d.take(j - first + 1).last() == b);
        }
        if b < 48 || b > 57 {
            proof {
                assert(!is_digit(d[j - first]));
                assert(!all_digits(d));
            }
            return None;
        }
        v = v * 10 + (b - 48) as i64;
        proof {
            assert forall|i: int| 0 <= i < j - first + 1 implies is_digit(
                #[trigger] d.take(j - first + 1)[i],
            ) by {
                if i < j - first {
                    assert(d.take(j - first + 1)[i] == d.take(j - first)[i]);
                }
            }
        }
        j += 1;
    }
    proof {
        assert(d.take(n - first) =~= d);
    }
    if t[start] == 45 {
        Some(-v)
    } else {
        Some(v)
    }
}

/// The mantissa `t[from..end]` read as one integer, with the number of digits
/// after the point.
fn parse_mantissa(t: &[u8], from: usize, end: usize) -> (r: Option<(i128, usize)>)
    requires
        from <= end <= t@.len(),
    ensures
        ({
            let mv = mantissa_value(t@.subrange(from as int, end as int));
            &&& mv is None ==> r is None
            &&& mv is Some ==> r is Some && (r->Some_0).0 == mv->Some_0.0 && (r->Some_0).1
                == mv->Some_0.1
            &&& r is Some ==> 0 <= (r->Some_0).0 < 1_000_000_000_000_000_000_000_000_000_000
                && (r->Some_0).1 <= 30
        }),
{
    let ghost m = t@.subrange(from as int, end as int);
    let k = scan_to(t, from, end, 46);
    let ghost kr = (k - from) as int;
    let f_start = if k < end {
        k + 1
    } else {
        end
    };
    let ghost d1 = m.take(kr);
    let ghost d2 = if kr < m.len() {
        m.skip(kr + 1)
    } else {
        Seq::<u8>::empty()
    };
    assert(d1 =~= t@.subrange(from as int, k as int));
    assert(d2 =~= t@.subrange(f_start as int, end as int));
    let len1 = k - from;
    let len2 = end - f_start;
    if len1 + len2 == 0 || len1 + len2 > MAX_MANTISSA_DIGITS {
        return None;
    }
    proof {
        assert(d1.take(0) =~= Seq::<u8>::empty());
        lemma_pow10_values();
    }
    let mut acc: i128 = 0;
    let mut j = from;
    while j < k
        invariant
            from <= j <= k <= end <= t@.len(),
            d1 =~= t@.subrange(from as int, k as int),
            m =~= t@.subrange(from as int, end as int),
            kr == k - from,
            kr == index_of(m, 46),
            d1 == m.take(kr),
            d2 == (if kr < m.len() { m.skip(kr + 1) } else { Seq::<u8>::empty() }),
            len1 == k - from,
            len1 + len2 <= 30,
            all_digits(d1.take(j - from)),
            acc == digits_value(d1.take(j - from)),
            pow10(30) == 1_000_000_000_000_000_000_000_000_000_000,
        decreases k - j,
    {
        let b = t[j];
        proof {
            assert(d1[j - from] == t@[j as int]);
            assert(d1.take(j - from + 1).drop_last() =~= d1.take(j - from));
            assert(d1.take(j - from + 1).last() == b);
            lemma_digits_below(d1.take(j - from));
            lemma_pow10_mono((j - from) as nat, 30);
        }
        if b < 48 || b > 57 {
            proof {
                assert(!is_digit(d1[j - from]));
                assert(!all_digits(d1));
            }
            return None;
        }
        acc = acc * 10 + (b - 48) as i128;
        proof {
            assert forall|i: int| 0 <= i < j - from + 1 implies is_digit(
                #[trigger] d1.take(j - from + 1)[i],
            ) by {
                if i < j - from {
                    assert(d1.take(j - from + 1)[i] == d1.take(j - from)[i]);
                }
            }
        }
        j += 1;
    }
    proof {
        assert(d1.take(len1 as int) =~= d1);
        assert(d2.take(0) =~= Seq::<u8>::empty());
        lemma_digits_below(d1);
    }
    let ghost v1 = digits_value(d1);
    let mut j = f_start;
    while j < end
        invariant
            f_start <= j <= end <= t@.len(),
            d2 =~= t@.subrange(f_start as int, end as int),
            m =~= t@.subrange(from as int, end as int),
            kr == k - from,
            kr == index_of(m, 46),
            d1 == m.take(kr),
            d2 == (if kr < m.len() { m.skip(kr + 1) } else { Seq::<u8>::empty() }),
            all_digits(d1),
            v1 == digits_value(d1),
            0 <= v1 < pow10(len1 as nat),
            len2 == end - f_start,
            len1 + len2 <= 30,
            all_digits(d2.take(j - f_start)),
            acc == v1 * pow10((j - f_start) as nat) + digits_value(d2.take(j - f_start)),
            0 <= acc < pow10((len1 + j - f_start) as nat),
            pow10(30) == 1_000_000_000_000_000_000_000_000_000_000,
        decreases end - j,
    {
        let b = t[j];
        let ghost q = (j - f_start) as nat;
        proof {
            assert(d2[q as int] == t@[j as int]);
            assert(d2.take(q as int + 1).drop_last() =~= d2.take(q as int));
            assert(d2.take(q as int + 1).last() == b);
            lemma_pow10_mono((len1 + q) as nat, 30);
        }
        if b < 48 || b > 57 {
            proof {
                assert(!is_digit(d2[q as int]));
                assert(!all_digits(d2));
            }
            return None;
        }
        acc = acc * 10 + (b - 48) as i128;
        proof {
            assert(pow10(q + 1) == 10 * pow10(q));
            assert(pow10((len1 + q + 1) as nat) == 10 * pow10((len1 + q) as nat));
            assert(v1 * pow10(q + 1) == 10 * (v1 * pow10(q))) by (nonlinear_arith)
                requires pow10(q + 1) == 10 * pow10(q);
            assert forall|i: int| 0 <= i < q + 1 implies is_digit(
                #[trigger] d2.take(q as int + 1)[i],
            ) by {
                if i < q {
                    assert(d2.take(q as int + 1)[i] == d2.take(q as int)[i]);
                }
            }
        }
        j += 1;
    }
    proof {
        assert(d2.take(len2 as int) =~= d2);
        lemma_pow10_mono((len1 + len2) as nat, 30);
    }
    Some((acc, len2))
}

/// `m · 10^sh`, rounded to the nearest integer when `sh < 0`, when it lies
/// within `COMPONENT_LIMIT`.
fn shift_value(m: i128, sh: i64) -> (r: Option<i128>)
    requires
        0 <= m < 1_000_000_000_000_000_000_000_000_000_000,
    ensures
        shift_round(m as int, sh as int) >= 0,
        r == if shift_round(m as int, sh as int) <= COMPONENT_LIMIT {
            Some(shift_round(m as int, sh as int) as i128)
        } else {
            None::<i128>
        },
{
    proof {
        lemma_pow10_values();
    }
    if m == 0 {
        proof {
            if sh < 0 {
                lemma_pow10_mono(0, (-sh) as nat);
                let q = pow10((-sh) as nat);
                assert((2 * 0 + q) / (2 * q) == 0) by (nonlinear_arith)
                    requires q >= 1;
            } else {
                assert(0 * pow10(sh as nat) == 0);
            }
        }
        return Some(0);
    }
    if sh >= 0 {
        proof {
            lemma_pow10_mono(0, sh as nat);
            assert(m * pow10(sh as nat) >= m) by (nonlinear_arith)
                requires m >= 1, pow10(sh as nat) >= 1;
        }
        if m > COMPONENT_LIMIT as i128 || sh > 13 {
            proof {
                if sh > 13 {
                    lemma_pow10_mono(14, sh as nat);
                    assert(pow10(14) == 10 * pow10(13));
                    assert(m * pow10(sh as nat) >= pow10(sh as nat)) by (nonlinear_arith)
                        requires m >= 1, pow10(sh as nat) >= 1;
                }
            }
            return None;
        }
        let p = pow10_of(sh as u32);
        proof {
            lemma_pow10_mono(sh as nat, 13);
            assert(0 <= m * p <= COMPONENT_LIMIT * 10_000_000_000_000) by (nonlinear_arith)
                requires 0 <= m <= COMPONENT_LIMIT, 1 <= p <= 10_000_000_000_000;
        }
        let v = m * p;
        if v > COMPONENT_LIMIT as i128 {
            None
        } else {
            Some(v)
        }
    } else if sh < -31 {
        proof {
            let q = pow10((-sh) as nat);
            lemma_pow10_mono(32, (-sh) as nat);
            assert((2 * m + q) / (2 * q) == 0) by (nonlinear_arith)
                requires
                    0 <= m < 1_000_000_000_000_000_000_000_000_000_000,
                    q >= 100_000_000_000_000_000_000_000_000_000_000,
            ;
        }
        Some(0)
    } else {
        let q = pow10_of((-sh) as u32);
        proof {
            lemma_pow10_mono(1, (-sh) as nat);
            lemma_pow10_mono((-sh) as nat, 31);
            assert((2 * m + q) / (2 * q) >= 0) by (nonlinear_arith)
                requires m >= 0, q >= 1;
        }
        let v = div_nearest(m, q);
        if v > COMPONENT_LIMIT as i128 {
            None
        } else {
            Some(v)
        }
    }
}

/// Value in micro-units of the unsigned decimal `t[from..]`, when it is one
/// and lies within `COMPONENT_LIMIT`.
fn parse_unsigned(t: &[u8], from: usize) -> (r: Option<i64>)
    requires
        from <= t@.len(),
    ensures
        ({
            let u = unsigned_value(t@.skip(from as int));
            r == if u is Some && u->Some_0 <= COMPONENT_LIMIT {
                Some(u->Some_0 as i64)
            } else {
                None::<i64>
            }
        }),
        r is Some ==> 0 <= r->Some_0 <= COMPONENT_LIMIT,
{
    let ghost s = t@.skip(from as int);
    let n = t.len();
    let ea = scan_to(t, from, n, 101);
    let eb = scan_to(t, from, n, 69);
    assert(t@.subrange(from as int, n as int) =~= s);
    let ei = if ea <= eb {
        ea
    } else {
        eb
    };
    let ghost eir = (ei - from) as int;
    assert(eir == exponent_index(s));
    assert(s.take(eir) =~= t@.subrange(from as int, ei as int));
    let mut e: i64 = 0;
    if ei < n {
        assert(s.skip(eir + 1) =~= t@.skip(ei + 1));
        match parse_exponent(t, ei + 1) {
            Some(v) => {
                e = v;
            },
            None => {
                return None;
            },
        }
    }
    assert(-999 <= e <= 999);
    let (m, f) = match parse_mantissa(t, from, ei) {
        Some(mf) => mf,
        None => {
            return None;
        },
    };
    let sh: i64 = 6 + e - f as i64;
    assert(unsigned_value(s) == Some(shift_round(m as int, sh as int)));
    match shift_value(m, sh) {
        Some(v) => Some(v as i64),
        None => None,
    }
}

proof fn lemma_unsigned_nonneg(t: Seq<u8>)
    ensures
        unsigned_value(t) is Some ==> unsigned_value(t)->Some_0 >= 0,
{
    let ei = exponent_index(t);
    let m = t.take(ei);
    let k = index_of(m, 46);
    let d1 = m.take(k);
    let d2 = if k < m.len() {
        m.skip(k + 1)
    } else {
        Seq::<u8>::empty()
    };
    if unsigned_value(t) is Some {
        lemma_digits_nonneg(d1);
        lemma_digits_nonneg(d2);
        let f = d2.len();
        lemma_pow10_mono(0, f);
        let mv = digits_value(d1) * pow10(f) + digits_value(d2);
        assert(mv >= 0) by (nonlinear_arith)
            requires digits_value(d1) >= 0, pow10(f) >= 1, digits_value(d2) >= 0, mv == digits_value(d1) * pow10(f) + digits_value(d2);
        let e = if ei == t.len() {
            0int
        } else {
            exponent_value(t.skip(ei + 1))->Some_0
        };
        let sh = 6 + e - f;
        if sh >= 0 {
            lemma_pow10_mono(0, sh as nat);
            assert(mv * pow10(sh as nat) >= 0) by (nonlinear_arith)
                requires mv >= 0, pow10(sh as nat) >= 1;
        } else {
            lemma_pow10_mono(0, (-sh) as nat);
            let q = pow10((-sh) as nat);
            assert((2 * mv + q) / (2 * q) >= 0) by (nonlinear_arith)
                requires mv >= 0, q >= 1;
        }
    }
}

/// Value in micro-units of a number field.
fn parse_number(t: &[u8]) -> (r: Option<i64>)
    ensures
        number_value(t@) is None ==> r is None,
        number_value(t@) is Some ==> r == Some(number_value(t@)->Some_0 as i64)
            && within(number_value(t@)->Some_0, COMPONENT_LIMIT as int),
{
    if t.len() > 0 && (t[0] == 45 || t[0] == 43) {
        let u = parse_unsigned(t, 1);
        proof {
            lemma_unsigned_nonneg(t@.skip(1));
        }
        match u {
            Some(v) => {
                if t[0] == 45 {
                    assert(number_value(t@) == Some(-(v as int)));
                    Some(-v)
                } else {
                    assert(number_value(t@) == Some(v as int));
                    Some(v)
                }
            },
            None => None,
        }
    } else {
        proof {
            assert(t@.skip(0) =~= t@);
        }
        let u = parse_unsigned(t, 0);
        proof {
            lemma_unsigned_nonneg(t@);
        }
        match u {
            Some(v) => {
                assert(number_value(t@) == Some(v as int));
                Some(v)
            },
            None => None,
        }
    }
}

/// The space-separated fields of the first `len` bytes of `s`.
fn split_fields(s: &[u8], len: usize) -> (r: Vec<Vec<u8>>)
    requires
        len <= s@.len(),
    ensures
        r@.len() == fields(s@.take(len as int)).len(),
        forall|k: int| 0 <= k < r@.len() ==> (#[trigger] r@[k])@ == fields(s@.take(len as int))[k],
{
    let mut done: Vec<Vec<u8>> = Vec::new();
    let mut cur: Vec<u8> = Vec::new();
    let mut i: usize = 0;
    proof {
        assert(s@.take(0) =~= Seq::<u8>::empty());
    }
    while i < len
        invariant
            i <= len <= s@.len(),
            fields(s@.take(i as int)).len() == done@.len() + 1,
            forall|k: int| 0 <= k < done@.len() ==> (#[trigger] done@[k])@ == fields(s@.take(i as int))[k],
            fields(s@.take(i as int))[done@.len() as int] == cur@,
        decreases len - i,
    {
        let b = s[i];
        let ghost f = fields(s@.take(i as int));
        proof {
            assert(s@.take(i + 1).drop_last() =~= s@.take(i as int));
            assert(s@.take(i + 1).last() == b);
        }
        if b == 32 {
            done.push(cur);
            cur = Vec::new();
            proof {
                assert(fields(s@.take(i + 1)) == f.push(Seq::empty()));
                assert forall|k: int| 0 <= k < done@.len() implies (#[trigger] done@[k])@ == fields(
                    s@.take(i + 1),
                )[k] by {}
            }
        } else {
            cur.push(b);
            proof {
                assert(fields(s@.take(i + 1)) == f.update(f.len() - 1, f.last().push(b)));
            }
        }
        i += 1;
    }
    done.push(cur);
    done
}

/// Whether `v` holds exactly the three bytes `a`, `b`, `c`.
fn is_word(v: &Vec<u8>, a: u8, b: u8, c: u8) -> (r: bool)
    ensures
        r == (v@ == seq![a, b, c]),
{
    if v.len() == 3 && v[0] == a && v[1] == b && v[2] == c {
        assert(v@ =~= seq![a, b, c]);
        true
    } else {
        assert(v@.len() != 3 || v@[0] != a || v@[1] != b || v@[2] != c);
        assert(seq![a, b, c][0] == a && seq![a, b, c][1] == b && seq![a, b, c][2] == c);
        false
    }
}

/// The numbers in fields `k`, `k + 1`, `k + 2`, when all three are numbers.
fn vec_of(f: &Vec<Vec<u8>>, k: usize) -> (r: Option<Vec3>)
    requires
        k + 3 <= f@.len(),
        k <= 4,
    ensures
        ({
            let g = f@.map_values(|v: Vec<u8>| v@);
            &&& r is Some <==> numbers_between(g, k as int, k + 3)
            &&& r is Some ==> r->Some_0 == vec_at(g, k as int)
        }),
{
    let ghost g = f@.map_values(|v: Vec<u8>| v@);
    assert(g[k as int] == f@[k as int]@);
    assert(g[k + 1] == f@[k + 1]@);
    assert(g[k + 2] == f@[k + 2]@);
    let x = parse_number(f[k].as_slice());
    let y = parse_number(f[k + 1].as_slice());
    let z = parse_number(f[k + 2].as_slice());
    match (x, y, z) {
        (Some(x), Some(y), Some(z)) => {
            assert forall|q: int| k <= q < k + 3 implies (#[trigger] number_value(g[q])) is Some by {
                if q == k + 1 {
                } else if q == k + 2 {
                }
            }
            Some(Vec3 { x, y, z })
        },
        _ => None,
    }
}

/// Decodes one line of the serial protocol: `imu gx gy gz ax ay az\n`
/// (gyroscope first) or `mag x y z\n`; numbers are decimals with an optional
/// sign, point and exponent, rounded to the nearest micro-unit.
pub fn parse_line(line: &[u8]) -> (r: Option<Reading>)
    ensures
        r == line_reading(line@),
{
    let n = line.len();
    if n == 0 || line[n - 1] != 10 {
        return None;
    }
    let f = split_fields(line, n - 1);
    let ghost g = f@.map_values(|v: Vec<u8>| v@);
    proof {
        assert(line@.take(n - 1) =~= line@.drop_last());
        assert(g =~= fields(line@.drop_last()));
    }
    if f.len() == 7 && is_word(&f[0], 105, 109, 117) {
        assert(g[0] == f@[0]@);
        let ang_vel = vec_of(&f, 1);
        let lin_acc = vec_of(&f, 4);
        match (ang_vel, lin_acc) {
            (Some(ang_vel), Some(lin_acc)) => {
                assert(numbers_between(g, 1, 7)) by {
                    assert forall|q: int| 1 <= q < 7 implies (#[trigger] number_value(g[q])) is Some by {
                        if q < 4 {
                            assert(numbers_between(g, 1, 4));
                        } else {
                            assert(numbers_between(g, 4, 7));
                        }
                    }
                }
                Some(Reading::Imu(ImuData { ang_vel, lin_acc }))
            },
            _ => None,
        }
    } else if f.len() == 4 && is_word(&f[0], 109, 97, 103) {
        assert(g[0] == f@[0]@);
        match vec_of(&f, 1) {
            Some(field) => Some(Reading::Mag(MagData { field })),
            None => None,
        }
    } else {
        proof {
            if f.len() == 7 {
                assert(g[0] == f@[0]@);
            }
            if f.len() == 4 {
                assert(g[0] == f@[0]@);
            }
        }
        None
    }
}

} // verus!
