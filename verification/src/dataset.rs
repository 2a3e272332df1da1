//! The seeded pseudo-random generator that drives the synthetic datasets.
//!
//! It is a 64-bit linear congruential generator: every draw replaces the state
//! `s` by `s * LCG_MULTIPLIER + LCG_INCREMENT` modulo 2^64.
use vstd::arithmetic::power2::pow2;
use vstd::prelude::*;

verus! {

/// The multiplier of the generator's recurrence.
pub const LCG_MULTIPLIER: u64 = 6364136223846793005;

/// The increment of the generator's recurrence.
pub const LCG_INCREMENT: u64 = 1442695040888963407;

/// The state that follows `state`: `state * LCG_MULTIPLIER + LCG_INCREMENT`
/// reduced modulo 2^64.
pub open spec fn lcg_next(state: u64) -> u64 {
    ((state as nat * LCG_MULTIPLIER as nat + LCG_INCREMENT as nat) % 0x1_0000_0000_0000_0000nat) as u64
}

/// A deterministic generator; the same seed always yields the same draws.
pub struct RNG {
    seed: u64,
}

impl View for RNG {
    type V = u64;

    /// The generator's current state.
    closed spec fn view(&self) -> u64 {
        self.seed
    }
}

impl RNG {
    /// A generator whose state is `seed`.
    pub fn new(seed: u64) -> (rng: Self)
        ensures
            rng@ == seed,
    {
        Self { seed }
    }

    /// Advances the state by one step of the recurrence and returns the new state.
    pub fn random_u64(&mut self) -> (r: u64)
        ensures
            final(self)@ == lcg_next(old(self)@),
            r == final(self)@,
    {
        let product = self.seed.wrapping_mul(LCG_MULTIPLIER);
        let next = product.wrapping_add(LCG_INCREMENT);
        proof {
            let m: int = 0x1_0000_0000_0000_0000;
            let x: int = self.seed as int * LCG_MULTIPLIER as int;
            assert(product as int == x % m);
            vstd::arithmetic::div_mod::lemma_add_mod_noop(x, LCG_INCREMENT as int, m);
            vstd::arithmetic::div_mod::lemma_small_mod(LCG_INCREMENT as nat, m as nat);
            vstd::arithmetic::div_mod::lemma_mod_twice(x, m);
            vstd::arithmetic::div_mod::lemma_mod_bound(x, m);
            if product as int + LCG_INCREMENT as int >= m {
                vstd::arithmetic::div_mod::lemma_fundamental_div_mod_converse(
                    product as int + LCG_INCREMENT as int, m, 1, product as int + LCG_INCREMENT as int - m);
            } else {
                vstd::arithmetic::div_mod::lemma_small_mod((product as int + LCG_INCREMENT as int) as nat, m as nat);
            }
        }
        self.seed = next;
        self.seed
    }

    /// Advances the state and returns its top 24 bits, the part of a draw
    /// that a single-precision float in [0, 1) can hold exactly (the draw
    /// divided by 2^24).
    pub fn random_u24(&mut self) -> (r: u64)
        ensures
            final(self)@ == lcg_next(old(self)@),
            r == final(self)@ >> 40u64,
            r < 0x100_0000,
    {
        let x = self.random_u64();
        assert(x >> 40u64 < 0x100_0000) by (bit_vector);
        x >> 40
    }

    /// Advances the state and returns the new state reduced modulo `n`: a
    /// position among `n` choices.
    pub fn random_index(&mut self, n: usize) -> (r: usize)
        requires
            n > 0,
        ensures
            final(self)@ == lcg_next(old(self)@),
            r == (final(self)@ as usize) % n,
            r < n,
    {
        let x = self.random_u64();
        (x as usize) % n
    }
}

/// Distinct states have distinct successors: the multiplier is odd, so one
/// step of the recurrence is a bijection on 64-bit states. Generators seeded
/// differently therefore never draw the same value at the same position.
pub proof fn law_distinct_seeds_distinct_draws(a: u64, b: u64)
    requires
        a != b,
    ensures
        lcg_next(a) != lcg_next(b),
{
    let m: int = 0x1_0000_0000_0000_0000;
    let mul: int = LCG_MULTIPLIER as int;
    let inv: int = 13877824140714322085;
    let wrap: int = 4787856489426250814;
    assert(6364136223846793005int * 13877824140714322085int == 1 + 4787856489426250814int * 0x1_0000_0000_0000_0000int);
    assert(mul * inv == 1 + wrap * m);
    if lcg_next(a) == lcg_next(b) {
        let x: int = a as int * mul + LCG_INCREMENT as int;
        let y: int = b as int * mul + LCG_INCREMENT as int;
        vstd::arithmetic::div_mod::lemma_mod_bound(x, m);
        vstd::arithmetic::div_mod::lemma_mod_bound(y, m);
        assert(x % m == y % m);
        vstd::arithmetic::div_mod::lemma_fundamental_div_mod(x, m);
        vstd::arithmetic::div_mod::lemma_fundamental_div_mod(y, m);
        let q: int = x / m - y / m;
        let d: int = a as int - b as int;
        assert(d * mul == q * m) by (nonlinear_arith)
            requires
                x == m * (x / m) + x % m,
                y == m * (y / m) + y % m,
                x % m == y % m,
                q == x / m - y / m,
                x == a as int * mul + LCG_INCREMENT as int,
                y == b as int * mul + LCG_INCREMENT as int,
                d == a as int - b as int,
        ;
        let k: int = q * inv - d * wrap;
        assert(d == k * m) by (nonlinear_arith)
            requires
                d * mul == q * m,
                mul * inv == 1 + wrap * m,
                k == q * inv - d * wrap,
        ;
        assert(false) by (nonlinear_arith)
            requires
                d == k * m,
                d != 0,
                -m < d < m,
                m > 0,
        ;
    }
}

/// The state after `n` steps of the recurrence from `seed`: the generator's
/// `n`-th draw.
pub open spec fn lcg_iterate(seed: u64, n: nat) -> u64
    decreases n,
{
    if n == 0 {
        seed
    } else {
        lcg_next(lcg_iterate(seed, (n - 1) as nat))
    }
}

/// `LCG_MULTIPLIER` to the power `d`.
spec fn multiplier_power(d: nat) -> int
    decreases d,
{
    if d == 0 {
        1
    } else {
        LCG_MULTIPLIER as int * multiplier_power((d - 1) as nat)
    }
}

/// The sum of `LCG_MULTIPLIER` to the powers `0 .. d`.
spec fn multiplier_sum(d: nat) -> int
    decreases d,
{
    if d == 0 {
        0
    } else {
        LCG_MULTIPLIER as int * multiplier_sum((d - 1) as nat) + 1
    }
}

/// Taking `i` steps and then `d` more is taking `i + d` steps.
proof fn lemma_iterate_adds(seed: u64, i: nat, d: nat)
    ensures
        lcg_iterate(seed, i + d) == lcg_iterate(lcg_iterate(seed, i), d),
    decreases d,
{
    if d > 0 {
        lemma_iterate_adds(seed, i, (d - 1) as nat);
        assert((i + d - 1) as nat == i + (d - 1) as nat);
    }
}

/// `d` steps from `t` land on `t * A^d + C * (A^0 + ... + A^(d-1))` modulo 2^64.
proof fn lemma_iterate_closed_form(t: u64, d: nat)
    ensures
        lcg_iterate(t, d) as int == (t as int * multiplier_power(d) + LCG_INCREMENT as int
            * multiplier_sum(d)) % 0x1_0000_0000_0000_0000int,
    decreases d,
{
    let m: int = 0x1_0000_0000_0000_0000int;
    let a: int = LCG_MULTIPLIER as int;
    let c: int = LCG_INCREMENT as int;
    if d == 0 {
        vstd::arithmetic::div_mod::lemma_small_mod(t as nat, m as nat);
    } else {
        let e = (d - 1) as nat;
        lemma_iterate_closed_form(t, e);
        let pe = multiplier_power(e);
        let se = multiplier_sum(e);
        let x: int = t as int * pe + c * se;
        vstd::arithmetic::div_mod::lemma_mul_mod_noop_left(x, a, m);
        vstd::arithmetic::div_mod::lemma_add_mod_noop((x % m) * a, c, m);
        vstd::arithmetic::div_mod::lemma_add_mod_noop(x * a, c, m);
        assert(x * a + c == t as int * multiplier_power(d) + c * multiplier_sum(d)) by (nonlinear_arith)
            requires
                x == t as int * pe + c * se,
                multiplier_power(d) == a * pe,
                multiplier_sum(d) == a * se + 1,
        ;
        assert(lcg_iterate(t, d) as int == ((x % m) * a + c) % m);
    }
}

/// `A^d - 1 == (A - 1) * (A^0 + ... + A^(d-1))`.
proof fn lemma_power_minus_one(d: nat)
    ensures
        multiplier_power(d) - 1 == (LCG_MULTIPLIER as int - 1) * multiplier_sum(d),
    decreases d,
{
    if d > 0 {
        let e = (d - 1) as nat;
        lemma_power_minus_one(e);
        let a: int = LCG_MULTIPLIER as int;
        assert(multiplier_power(d) - 1 == (a - 1) * multiplier_sum(d)) by (nonlinear_arith)
            requires
                multiplier_power(e) - 1 == (a - 1) * multiplier_sum(e),
                multiplier_power(d) == a * multiplier_power(e),
                multiplier_sum(d) == a * multiplier_sum(e) + 1,
        ;
    }
}

/// The sum over `m + n` powers splits at `m`:
/// `S(m + n) == S(m) + A^m * S(n)`.
proof fn lemma_sum_splits(m: nat, n: nat)
    ensures
        multiplier_sum(m + n) == multiplier_sum(m) + multiplier_power(m) * multiplier_sum(n),
    decreases n,
{
    if n > 0 {
        let e = (n - 1) as nat;
        lemma_sum_splits(m, e);
        lemma_power_minus_one(m);
        let a: int = LCG_MULTIPLIER as int;
        assert((m + n - 1) as nat == m + e);
        let sm = multiplier_sum(m);
        let pm = multiplier_power(m);
        let se = multiplier_sum(e);
        assert(a * (sm + pm * se) + 1 == sm + pm * (a * se + 1)) by (nonlinear_arith)
            requires
                pm - 1 == (a - 1) * sm,
        ;
    }
}

/// Every power of the multiplier is 1 modulo 4.
proof fn lemma_power_mod_four(d: nat)
    ensures
        multiplier_power(d) % 4 == 1,
    decreases d,
{
    if d > 0 {
        let e = (d - 1) as nat;
        lemma_power_mod_four(e);
        let pe = multiplier_power(e);
        let k = pe / 4;
        assert(pe == 4 * k + 1);
        assert(LCG_MULTIPLIER as int * pe == 4 * (LCG_MULTIPLIER as int * k + 1591034055961698251) + 1);
    }
}

/// The sum of `d` powers is odd exactly when `d` is.
proof fn lemma_sum_parity(d: nat)
    ensures
        multiplier_sum(d) % 2 == d % 2,
    decreases d,
{
    if d > 0 {
        let e = (d - 1) as nat;
        lemma_sum_parity(e);
        let se = multiplier_sum(e);
        let k = se / 2;
        assert(se == 2 * k + se % 2);
        assert(LCG_MULTIPLIER as int * se + 1 == 2 * (LCG_MULTIPLIER as int * k + 3182068111923396502 * (se % 2)) + se % 2 + 1);
    }
}

/// For `d >= 1` the sum of `d` powers is `2^v` times an odd number, with
/// `2^v <= d`: it holds exactly as many factors of two as `d` does.
proof fn lemma_sum_odd_part(d: nat) -> (r: (nat, int))
    requires
        d >= 1,
    ensures
        multiplier_sum(d) == pow2(r.0) * r.1,
        r.1 % 2 == 1,
        pow2(r.0) <= d,
    decreases d,
{
    if d % 2 == 1 {
        lemma_sum_parity(d);
        vstd::arithmetic::power2::lemma2_to64();
        (0, multiplier_sum(d))
    } else {
        let m = d / 2;
        let (v, o) = lemma_sum_odd_part(m);
        assert(d == m + m);
        lemma_sum_splits(m, m);
        lemma_power_mod_four(m);
        let pm = multiplier_power(m);
        let r = pm / 4;
        assert(pm == 4 * r + 1);
        let p = o / 2;
        assert(o == 2 * p + 1);
        let w: int = o * (2 * r + 1);
        let k: int = 2 * p * r + p + r;
        assert(w == 2 * k + 1) by (nonlinear_arith)
            requires
                w == o * (2 * r + 1),
                o == 2 * p + 1,
                k == 2 * p * r + p + r,
        ;
        vstd::arithmetic::power2::lemma_pow2_unfold(v + 1);
        assert((v + 1 - 1) as nat == v);
        let pv = pow2(v) as int;
        assert(multiplier_sum(d) == (2 * pv) * w) by (nonlinear_arith)
            requires
                multiplier_sum(d) == multiplier_sum(m) + pm * multiplier_sum(m),
                multiplier_sum(m) == pv * o,
                pm == 4 * r + 1,
                w == o * (2 * r + 1),
        ;
        (v + 1, w)
    }
}

/// The generator has full period: from any seed, the first 2^64 draws are
/// pairwise distinct, so every 64-bit value comes up exactly once per period.
/// (The increment is odd and the multiplier is 1 modulo 4.)
pub proof fn law_full_period(seed: u64, i: nat, j: nat)
    requires
        i < j < 0x1_0000_0000_0000_0000,
    ensures
        lcg_iterate(seed, i) != lcg_iterate(seed, j),
{
    let m: int = 0x1_0000_0000_0000_0000int;
    let a: int = LCG_MULTIPLIER as int;
    let c: int = LCG_INCREMENT as int;
    let d = (j - i) as nat;
    let t = lcg_iterate(seed, i);
    lemma_iterate_adds(seed, i, d);
    assert(i + d == j);
    if t == lcg_iterate(t, d) {
        lemma_iterate_closed_form(t, d);
        lemma_power_minus_one(d);
        let (v, o) = lemma_sum_odd_part(d);
        let pd = multiplier_power(d);
        let sd = multiplier_sum(d);
        let x: int = t as int * pd + c * sd;
        vstd::arithmetic::div_mod::lemma_fundamental_div_mod(x, m);
        let q: int = x / m;
        let u: int = t as int * (a - 1) + c;
        assert(m * q == u * sd) by (nonlinear_arith)
            requires
                x == m * q + t as int,
                x == t as int * pd + c * sd,
                pd - 1 == (a - 1) * sd,
                u == t as int * (a - 1) + c,
        ;
        let hu: int = t as int * 3182068111923396502 + 721347520444481703;
        assert(u == 2 * hu + 1);
        vstd::arithmetic::power2::lemma2_to64();
        if v >= 64 {
            if v > 64 {
                vstd::arithmetic::power2::lemma_pow2_strictly_increases(64, v);
            }
            assert(false);
        }
        let rest = (64 - v) as nat;
        vstd::arithmetic::power2::lemma_pow2_adds(v, rest);
        assert(v + rest == 64);
        vstd::arithmetic::power2::lemma_pow2_unfold(rest);
        vstd::arithmetic::power2::lemma_pow2_pos(v);
        let pv = pow2(v) as int;
        let ph = pow2((rest - 1) as nat) as int;
        assert(m == pv * (2 * ph));
        let po = o / 2;
        assert(o == 2 * po + 1);
        assert(pv * (u * o) == pv * (2 * ph * q)) by (nonlinear_arith)
            requires
                m * q == u * sd,
                sd == pv * o,
                m == pv * (2 * ph),
        ;
        vstd::arithmetic::mul::lemma_mul_equality_converse(pv, u * o, 2 * ph * q);
        let k: int = 2 * hu * po + hu + po;
        assert(u * o == 2 * k + 1) by (nonlinear_arith)
            requires
                u == 2 * hu + 1,
                o == 2 * po + 1,
                k == 2 * hu * po + hu + po,
        ;
        assert(2 * (ph * q) == 2 * k + 1) by (nonlinear_arith)
            requires
                u * o == 2 * ph * q,
                u * o == 2 * k + 1,
        ;
    }
}

} // verus!
