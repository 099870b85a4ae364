use vstd::prelude::*;

verus! {

/// Fixed-point steps to the unit: every scalar of the engine (strengths,
/// neuron states, fitness) is an integer count of millionths.
pub const SCALE: i64 = 1_000_000;

/// Inputs beyond three units are squashed flat by `tanh`.
pub const TANH_CLIP: i64 = 3 * SCALE;

/// Clamps a mathematical integer into the `i64` range.
pub open spec fn clamp_i64(x: int) -> int {
    if x < i64::MIN {
        i64::MIN as int
    } else if x > i64::MAX {
        i64::MAX as int
    } else {
        x
    }
}

/// Division truncating toward zero, the way hardware integer division
/// rounds; `d` must be positive.
pub open spec fn tdiv(a: int, d: int) -> int {
    if a >= 0 {
        a / d
    } else {
        -((-a) / d)
    }
}

/// Magnitude of an `i64`, as a `u64` so that `i64::MIN` has one too.
pub(crate) fn abs_u64(a: i64) -> (r: u64)
    ensures
        r == (if a >= 0 { a as int } else { -(a as int) }),
{
    if a >= 0 {
        a as u64
    } else if a == i64::MIN {
        9223372036854775808u64
    } else {
        (-a) as u64
    }
}

/// Truncating division of an `i64` by a positive divisor.
pub(crate) fn div_trunc(a: i64, d: i64) -> (r: i64)
    requires
        d >= 1,
    ensures
        r == tdiv(a as int, d as int),
{
    let m = abs_u64(a);
    let q = m / (d as u64);
    if a >= 0 {
        q as i64
    } else if q == 9223372036854775808u64 {
        i64::MIN
    } else {
        -(q as i64)
    }
}

/// Magnitude of an `i128`, as a `u128`.
fn abs_u128(a: i128) -> (r: u128)
    ensures
        r == (if a >= 0 { a as int } else { -(a as int) }),
{
    if a >= 0 {
        a as u128
    } else if a == i128::MIN {
        170141183460469231731687303715884105728u128
    } else {
        (-a) as u128
    }
}

/// Truncating division of an `i128` by a positive divisor.
pub(crate) fn div_trunc_i128(a: i128, d: i128) -> (r: i128)
    requires
        d >= 1,
    ensures
        r == tdiv(a as int, d as int),
{
    let m = abs_u128(a);
    let q = m / (d as u128);
    if a >= 0 {
        q as i128
    } else if q == 170141183460469231731687303715884105728u128 {
        i128::MIN
    } else {
        -(q as i128)
    }
}

/// Clamps an `i128` into the `i64` range.
pub(crate) fn clamp_to_i64(x: i128) -> (r: i64)
    ensures
        r == clamp_i64(x as int),
{
    if x < i64::MIN as i128 {
        i64::MIN
    } else if x > i64::MAX as i128 {
        i64::MAX
    } else {
        x as i64
    }
}

/// The value `tanh(x)` is approximated by: clip `x` to three units, then
/// apply the odd rational map `m (27 + m^2) / (27 + 9 m^2)` (written here
/// over fixed-point numbers), which matches the hyperbolic tangent to a few
/// thousandths inside the clipped band and stays within one unit.
pub open spec fn spec_tanh(x: int) -> int {
    let c = if x < -TANH_CLIP {
        -TANH_CLIP as int
    } else if x > TANH_CLIP {
        TANH_CLIP as int
    } else {
        x
    };
    let m = if c >= 0 {
        c
    } else {
        -c
    };
    let s2 = (SCALE as int) * (SCALE as int);
    let q = (m * (27 * s2 + m * m)) / (27 * s2 + 9 * m * m);
    if c >= 0 {
        q
    } else {
        -q
    }
}

/// The squashing map never leaves the unit band.
pub proof fn lemma_tanh_bounds(x: int)
    ensures
        -SCALE <= spec_tanh(x) <= SCALE,
{
    let c = if x < -TANH_CLIP {
        -TANH_CLIP as int
    } else if x > TANH_CLIP {
        TANH_CLIP as int
    } else {
        x
    };
    let m = if c >= 0 {
        c
    } else {
        -c
    };
    let s = SCALE as int;
    let s2 = s * s;
    let num = m * (27 * s2 + m * m);
    let den = 27 * s2 + 9 * m * m;
    assert(0 <= m <= 3 * s);
    assert(num <= s * den) by (nonlinear_arith)
        requires
            0 <= m <= 3 * s,
            s2 == s * s,
            num == m * (27 * s2 + m * m),
            den == 27 * s2 + 9 * m * m,
    {
        assert(s * den - num == (3 * s - m) * (3 * s - m) * (3 * s - m));
        assert((3 * s - m) * (3 * s - m) * (3 * s - m) >= 0);
    }
    assert(num >= 0 && den >= 27 * s2) by (nonlinear_arith)
        requires
            0 <= m,
            s2 == s * s,
            s == 1000000,
            num == m * (27 * s2 + m * m),
            den == 27 * s2 + 9 * m * m,
    ;
    let q = num / den;
    vstd::arithmetic::div_mod::lemma_fundamental_div_mod(num, den);
    assert(q <= s) by (nonlinear_arith)
        requires
            num == den * q + (num % den),
            0 <= num % den < den,
            num <= s * den,
            den > 0,
    ;
    vstd::arithmetic::div_mod::lemma_div_pos_is_pos(num, den);
}

/// tanh activation function: squashes any input into [-SCALE, SCALE].
pub fn tanh(x: i64) -> (r: i64)
    ensures
        r == spec_tanh(x as int),
        -SCALE <= r <= SCALE,
{
    proof {
        lemma_tanh_bounds(x as int);
    }
    let c: i64 = if x < -TANH_CLIP {
        -TANH_CLIP
    } else if x > TANH_CLIP {
        TANH_CLIP
    } else {
        x
    };
    let m: u128 = (if c >= 0 { c } else { -c }) as u128;
    let s2: u128 = (SCALE as u128) * (SCALE as u128);
    proof {
        assert(m <= 3000000);
        assert(m * m <= 9000000000000) by (nonlinear_arith)
            requires
                m <= 3000000,
        ;
        assert(9 * m * m <= 81000000000000) by (nonlinear_arith)
            requires
                m <= 3000000,
        ;
        assert(m * (27 * s2 + m * m) <= 3000000 * (27 * 1000000000000 + 9000000000000))
            by (nonlinear_arith)
            requires
                m <= 3000000,
                m * m <= 9000000000000,
                s2 == 1000000000000,
        ;
    }
    let num: u128 = m * (27 * s2 + m * m);
    let den: u128 = 27 * s2 + 9 * m * m;
    let q: u128 = num / den;
    let qi: i64 = q as i64;
    if c >= 0 {
        qi
    } else {
        -qi
    }
}

/// sigmoid activation function: squashes any input into [0, SCALE], via the
/// half-angle identity with `tanh`.
pub fn sigmoid(x: i64) -> (r: i64)
    ensures
        r == (SCALE + spec_tanh(tdiv(x as int, 2))) / 2,
        0 <= r <= SCALE,
{
    let t = tanh(div_trunc(x, 2));
    (SCALE + t) / 2
}

/// rectified linear function: negative inputs become zero.
pub fn rectified(x: i64) -> (r: i64)
    ensures
        r == (if x < 0 { 0int } else { x as int }),
{
    if x < 0 {
        0
    } else {
        x
    }
}

} // verus!
