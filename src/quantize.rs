use vstd::prelude::*;

verus! {

/// The number of steps between the lowest and the highest level at `bits` bits
/// of precision: `2^bits - 1`.
pub open spec fn levels_of(bits: nat) -> int {
    vstd::arithmetic::power2::pow2(bits) - 1
}

/// `n / d` rounded to the nearest integer, halves rounded up.
pub open spec fn round_div(n: int, d: int) -> int {
    (2 * n + d) / (2 * d)
}

/// `v` clamped to the byte range `[0, 255]`.
pub open spec fn clamp_byte(v: int) -> int {
    if v < 0 {
        0
    } else if v > 255 {
        255
    } else {
        v
    }
}

/// The 8-bit channel value that quantization level `level` stands for when
/// there are `levels` steps: `level / levels * 255`, rounded, then clamped
/// to `[0, 255]`.
pub open spec fn expand_level(level: int, levels: int) -> int {
    clamp_byte(round_div(level * 255, levels))
}

/// Steps of an `N`-bit quantizer: `2^N - 1`.
pub fn level_count<const N: usize>() -> (r: u32)
    requires
        1 <= N <= 8,
    ensures
        r as int == levels_of(N as nat),
        1 <= r <= 255,
{
    let n: u32 = N as u32;
    let mut p: u32 = 1;
    let mut i: u32 = 0;
    proof {
        vstd::arithmetic::power2::lemma2_to64();
    }
    while i < n
        invariant
            n == N,
            n <= 8,
            i <= n,
            p as int == vstd::arithmetic::power2::pow2(i as nat),
            p <= 256,
        decreases n - i,
    {
        proof {
            vstd::arithmetic::power2::lemma_pow2_unfold((i + 1) as nat);
            vstd::arithmetic::power2::lemma_pow2_strictly_increases(i as nat, 8);
            vstd::arithmetic::power2::lemma2_to64();
        }
        p = p * 2;
        i = i + 1;
    }
    proof {
        vstd::arithmetic::power2::lemma_pow2_strictly_increases(0, n as nat);
        vstd::arithmetic::power2::lemma2_to64();
    }
    p - 1
}

/// The 8-bit value of quantization level `level` of an `N`-bit quantizer:
/// `level / (2^N - 1) * 255`, rounded to the nearest integer and clamped to
/// `[0, 255]`. Levels below `0` give `0`, levels above the top give `255`.
pub fn level_to_channel<const N: usize>(level: i64) -> (r: u8)
    requires
        1 <= N <= 8,
    ensures
        r as int == expand_level(level as int, levels_of(N as nat)),
{
    let levels: i64 = level_count::<N>() as i64;
    if level <= 0 {
        assert(level * 255 <= 0) by (nonlinear_arith)
            requires level <= 0;
        assert(round_div(level * 255, levels as int) <= 0) by (nonlinear_arith)
            requires level * 255 <= 0, levels >= 1,
                round_div(level * 255, levels as int) == (2 * (level * 255) + levels) / (2 * levels);
        0
    } else if level >= levels {
        assert(level * 255 >= levels * 255) by (nonlinear_arith)
            requires level >= levels, levels >= 1;
        assert(round_div(level * 255, levels as int) >= 255) by (nonlinear_arith)
            requires level * 255 >= levels * 255, levels >= 1,
                round_div(level * 255, levels as int) == (2 * (level * 255) + levels) / (2 * levels);
        255
    } else {
        let n: i64 = level * 255;
        let q: i64 = (2 * n + levels) / (2 * levels);
        assert(0 <= q <= 255) by (nonlinear_arith)
            requires 0 < level < levels, levels <= 255, n == level * 255,
                q == (2 * n + levels) / (2 * levels);
        q as u8
    }
}

/// The three channel bytes of an `N`-bit quantized color, given the level of
/// each channel (red, green, blue).
pub fn levels_to_rgb<const N: usize>(levels: (i64, i64, i64)) -> (r: (u8, u8, u8))
    requires
        1 <= N <= 8,
    ensures
        r.0 as int == expand_level(levels.0 as int, levels_of(N as nat)),
        r.1 as int == expand_level(levels.1 as int, levels_of(N as nat)),
        r.2 as int == expand_level(levels.2 as int, levels_of(N as nat)),
{
    (level_to_channel::<N>(levels.0), level_to_channel::<N>(levels.1), level_to_channel::<N>(levels.2))
}

/// The lowest level maps to black and the top level to full intensity, at
/// every bit depth.
pub proof fn lemma_expand_ends(levels: int)
    requires
        levels >= 1,
    ensures
        expand_level(0, levels) == 0,
        expand_level(levels, levels) == 255,
{
    assert((2 * (levels * 255) + levels) / (2 * levels) == 255) by (nonlinear_arith)
        requires levels >= 1;
    assert(levels / (2 * levels) == 0) by (nonlinear_arith)
        requires levels >= 1;
}

/// The channel value never decreases as the level grows.
pub proof fn lemma_expand_monotone(a: int, b: int, levels: int)
    requires
        levels >= 1,
        a <= b,
    ensures
        expand_level(a, levels) <= expand_level(b, levels),
{
    assert(a * 255 <= b * 255) by (nonlinear_arith)
        requires a <= b;
    vstd::arithmetic::div_mod::lemma_div_is_ordered(2 * (a * 255) + levels, 2 * (b * 255) + levels, 2 * levels);
}

/// Distinct levels within range give distinct channel values: no two
/// representable levels collapse onto one byte.
pub proof fn lemma_expand_strictly_monotone(a: int, b: int, levels: int)
    requires
        1 <= levels <= 255,
        0 <= a < b <= levels,
    ensures
        expand_level(a, levels) < expand_level(b, levels),
{
    let n1 = 2 * (a * 255) + levels;
    let n2 = 2 * (b * 255) + levels;
    let d = 2 * levels;
    assert(n2 - n1 >= d) by (nonlinear_arith)
        requires n1 == 2 * (a * 255) + levels, n2 == 2 * (b * 255) + levels, d == 2 * levels,
            a < b, levels <= 255;
    vstd::arithmetic::div_mod::lemma_fundamental_div_mod(n1, d);
    vstd::arithmetic::div_mod::lemma_fundamental_div_mod(n2, d);
    vstd::arithmetic::div_mod::lemma_mod_pos_bound(n1, d);
    vstd::arithmetic::div_mod::lemma_mod_pos_bound(n2, d);
    assert(n1 / d < n2 / d) by (nonlinear_arith)
        requires n1 == d * (n1 / d) + n1 % d, n2 == d * (n2 / d) + n2 % d,
            0 <= n1 % d < d, 0 <= n2 % d < d, n2 - n1 >= d, d > 0;
    assert(0 <= n1 / d && n2 / d <= 255) by (nonlinear_arith)
        requires n1 == d * (n1 / d) + n1 % d, n2 == d * (n2 / d) + n2 % d,
            0 <= n1 % d < d, 0 <= n2 % d < d, d == 2 * levels, levels >= 1,
            n1 >= 0, n2 == 2 * (b * 255) + levels, b <= levels;
}

} // verus!
