//! The 46-bit linear congruential generator.
//!
//! A state is an integer below `2^46`; one step multiplies it by the
//! multiplier and keeps the low 46 bits. A draw is the new state read as the
//! numerator of a fraction over `2^46`, so every draw lies in `[0, 1)`, and
//! strictly inside `(0, 1)` whenever seed and multiplier are odd.

use vstd::prelude::*;
use vstd::arithmetic::div_mod::*;
use vstd::arithmetic::mul::*;
use vstd::arithmetic::power::*;

verus! {

/// `2^23`, the radix in which states are split for multiplication.
pub const R23: u64 = 0x80_0000;

/// `2^46`, the modulus of the generator and the denominator of every draw.
pub const R46: u64 = 0x4000_0000_0000;

/// Initial state of the shared stream.
pub const TRAN0: u64 = 314159265;

/// Multiplier of the shared stream, `5^13`.
pub const AMULT: u64 = 1220703125;

/// One step of the generator from state `x` with multiplier `a`.
pub open spec fn lcg_next(x: int, a: int) -> int {
    (a * x) % (R46 as int)
}

/// The state reached from `x` after `k` steps with multiplier `a`.
pub open spec fn lcg_state(x: int, a: int, k: nat) -> int
    decreases k,
{
    if k == 0 {
        x
    } else {
        lcg_next(lcg_state(x, a, (k - 1) as nat), a)
    }
}

/// Products of two numbers below `2^23` stay below `2^46`.
proof fn lemma_half_product_bound(u: int, v: int)
    by (nonlinear_arith)
    requires
        0 <= u < 0x80_0000,
        0 <= v < 0x80_0000,
    ensures
        0 <= u * v <= 0x7f_ffff * 0x7f_ffff,
{
}

/// The split multiplication keeps exactly the low 46 bits of the product.
proof fn lemma_split_multiply(a: int, x: int, a1: int, a2: int, x1: int, x2: int, z: int)
    requires
        0 <= a < R46,
        0 <= x < R46,
        a1 == a / (R23 as int),
        a2 == a % (R23 as int),
        x1 == x / (R23 as int),
        x2 == x % (R23 as int),
        z == (a1 * x2 + a2 * x1) % (R23 as int),
    ensures
        (a * x) % (R46 as int) == ((R23 as int) * z + a2 * x2) % (R46 as int),
{
    let r: int = 0x80_0000;
    let m: int = 0x4000_0000_0000;
    let t1 = a1 * x2 + a2 * x1;
    let q = t1 / r;
    lemma_fundamental_div_mod(a, r);
    lemma_fundamental_div_mod(x, r);
    lemma_fundamental_div_mod(t1, r);
    assert(a * x == r * (a1 * x) + a2 * x) by (nonlinear_arith)
        requires
            a == r * a1 + a2,
    ;
    assert(a1 * x == r * (a1 * x1) + a1 * x2) by (nonlinear_arith)
        requires
            x == r * x1 + x2,
    ;
    assert(a2 * x == r * (a2 * x1) + a2 * x2) by (nonlinear_arith)
        requires
            x == r * x1 + x2,
    ;
    assert(a * x == m * (a1 * x1 + q) + (r * z + a2 * x2));
    lemma_mod_multiples_vanish(a1 * x1 + q, r * z + a2 * x2, m);
}

/// Reducing the factors first does not change the low 46 bits of a product.
proof fn lemma_reduce_factors(a: int, x: int)
    ensures
        (a * x) % (R46 as int) == ((a % (R46 as int)) * (x % (R46 as int))) % (R46 as int),
{
    lemma_mul_mod_noop(a, x, R46 as int);
}

/// The low 46 bits of the product `a * x`, formed from 23-bit halves so that
/// no intermediate value leaves 64 bits.
fn mul46(a: u64, x: u64) -> (r: u64)
    ensures
        r == (a * x) % (R46 as int),
        r < R46,
{
    let am: u64 = a % R46;
    let xm: u64 = x % R46;
    let a1: u64 = am / R23;
    let a2: u64 = am % R23;
    let x1: u64 = xm / R23;
    let x2: u64 = xm % R23;
    proof {
        lemma_half_product_bound(a1 as int, x2 as int);
        lemma_half_product_bound(a2 as int, x1 as int);
        lemma_half_product_bound(a2 as int, x2 as int);
    }
    let t1: u64 = a1 * x2 + a2 * x1;
    let z: u64 = t1 % R23;
    let t3: u64 = R23 * z + a2 * x2;
    proof {
        lemma_split_multiply(am as int, xm as int, a1 as int, a2 as int, x1 as int, x2 as int, z as int);
        lemma_reduce_factors(a as int, x as int);
    }
    t3 % R46
}

/// Advances the state by one step and returns the draw.
///
/// The draw is the new state, the numerator of a fraction over `2^46`.
pub fn randlc(x: &mut u64, a: u64) -> (r: u64)
    ensures
        *final(x) == lcg_next(*old(x) as int, a as int),
        r == *final(x),
        r < R46,
{
    let r: u64 = mul46(a, *x);
    *x = r;
    r
}

/// Writes `n` consecutive draws into the front of `y`, advancing the state
/// once per draw.
pub fn vranlc(n: usize, x: &mut u64, a: u64, y: &mut Vec<u64>)
    requires
        n <= old(y).len(),
    ensures
        *final(x) == lcg_state(*old(x) as int, a as int, n as nat),
        final(y).len() == old(y).len(),
        forall|i: int| 0 <= i < n ==> final(y)[i] == lcg_state(*old(x) as int, a as int, (i + 1) as nat),
        forall|i: int| n <= i < old(y).len() ==> final(y)[i] == old(y)[i],
{
    let mut i: usize = 0;
    while i < n
        invariant
            i <= n <= y.len(),
            y.len() == old(y).len(),
            *x == lcg_state(*old(x) as int, a as int, i as nat),
            forall|k: int| 0 <= k < i ==> y[k] == lcg_state(*old(x) as int, a as int, (k + 1) as nat),
            forall|k: int| i <= k < y.len() ==> y[k] == old(y)[k],
        decreases n - i,
    {
        let r: u64 = randlc(x, a);
        y[i] = r;
        i += 1;
    }
}

/// Jumps `k` steps ahead of `seed` with `O(log k)` multiplications.
///
/// The multiplier is squared for every even exponent and folded into the state
/// for every odd one, so the result is the state that `k` single steps reach.
pub fn skip_ahead(seed: u64, a: u64, k: u64) -> (r: u64)
    ensures
        r == lcg_state(seed as int, a as int, k as nat),
{
    if k == 0 {
        return seed;
    }
    let mut t1: u64 = seed;
    let mut t2: u64 = a;
    let mut kk: u64 = k;
    while kk > 1
        invariant
            kk >= 1,
            lcg_state(t1 as int, t2 as int, kk as nat) == lcg_state(seed as int, a as int, k as nat),
        decreases kk,
    {
        let ik: u64 = kk / 2;
        if 2 * ik == kk {
            proof {
                lemma_lcg_square(t1 as int, t2 as int, ik as nat);
            }
            t2 = mul46(t2, t2);
            kk = ik;
        } else {
            proof {
                lemma_lcg_shift(t1 as int, t2 as int, (kk - 1) as nat);
            }
            t1 = mul46(t2, t1);
            kk = kk - 1;
        }
    }
    proof {
        reveal_with_fuel(lcg_state, 2);
    }
    mul46(t2, t1)
}

/// How many steps separate worker `kn` from the start of a stream of `nn`
/// draws shared by `np` workers.
pub open spec fn worker_offset(kn: u64, np: u64, nn: u64) -> int {
    ((nn / 4 + np - 1) / (np as int)) * 4 * kn
}

/// The seed of worker `kn` out of `np` when a stream of `nn` draws is dealt
/// out in equal blocks of whole groups of four.
///
/// Worker 0 starts at `s` itself. Every other worker starts `4 * mq * kn`
/// steps later, `mq` being the number of groups per worker rounded up, and
/// never fewer than one step later.
pub fn find_my_seed(kn: u64, np: u64, nn: u64, s: u64, a: u64) -> (seed: u64)
    requires
        np > 0,
        nn / 4 + np - 1 <= u64::MAX,
        worker_offset(kn, np, nn) <= u64::MAX,
    ensures
        seed == if kn == 0 {
            s as int
        } else if worker_offset(kn, np, nn) == 0 {
            lcg_state(s as int, a as int, 1)
        } else {
            lcg_state(s as int, a as int, worker_offset(kn, np, nn) as nat)
        },
{
    if kn == 0 {
        return s;
    }
    let mq: u64 = (nn / 4 + (np - 1)) / np;
    proof {
        assert(mq * 4 * kn == worker_offset(kn, np, nn));
        assert(mq * 4 <= mq * 4 * kn) by (nonlinear_arith)
            requires
                kn >= 1,
                mq >= 0,
        ;
    }
    let nq: u64 = mq * 4 * kn;
    if nq == 0 {
        skip_ahead(s, a, 1)
    } else {
        skip_ahead(s, a, nq)
    }
}

/// Taking one step and then `k` more is the same as taking `k + 1`.
pub proof fn lemma_lcg_shift(x: int, a: int, k: nat)
    ensures
        lcg_state(lcg_next(x, a), a, k) == lcg_state(x, a, k + 1),
    decreases k,
{
    if k > 0 {
        lemma_lcg_shift(x, a, (k - 1) as nat);
    } else {
        reveal_with_fuel(lcg_state, 2);
    }
}

/// Steps compose: `j` steps followed by `k` steps are `j + k` steps.
pub proof fn lemma_lcg_state_adds(x: int, a: int, j: nat, k: nat)
    ensures
        lcg_state(lcg_state(x, a, j), a, k) == lcg_state(x, a, j + k),
    decreases k,
{
    if k > 0 {
        lemma_lcg_state_adds(x, a, j, (k - 1) as nat);
    }
}

/// The closed form of the generator: `k >= 1` steps multiply the state by the
/// `k`-th power of the multiplier, modulo `2^46`.
pub proof fn lemma_lcg_closed_form(x: int, a: int, k: nat)
    requires
        k >= 1,
    ensures
        lcg_state(x, a, k) == (pow(a, k) * x) % (R46 as int),
    decreases k,
{
    let m = R46 as int;
    if k == 1 {
        reveal_with_fuel(lcg_state, 2);
        lemma_pow1(a);
    } else {
        let j = (k - 1) as nat;
        lemma_lcg_closed_form(x, a, j);
        // lcg_state(x, a, k) == (a * ((pow(a, j) * x) % m)) % m
        lemma_mul_mod_noop_right(a, pow(a, j) * x, m);
        lemma_mul_is_associative(a, pow(a, j), x);
        reveal_with_fuel(pow, 2);
        assert(pow(a, k) == a * pow(a, j));
    }
}

/// Two steps with a multiplier are one step with its square.
proof fn lemma_lcg_square(x: int, a: int, k: nat)
    ensures
        lcg_state(x, (a * a) % (R46 as int), k) == lcg_state(x, a, 2 * k),
{
    let m = R46 as int;
    let b = (a * a) % m;
    if k > 0 {
        lemma_lcg_closed_form(x, b, k);
        lemma_lcg_closed_form(x, a, 2 * k);
        // pow(b, k) % m == pow(a * a, k) % m
        lemma_pow_mod_noop(a * a, k, m);
        // pow(a * a, k) == pow(a, 2 * k)
        lemma_square_is_pow2(a);
        lemma_pow_multiplies(a, 2, k);
        lemma_mul_mod_noop_left(pow(b, k), x, m);
        lemma_mul_mod_noop_left(pow(a * a, k), x, m);
    }
}

/// A step from an odd state with an odd multiplier lands on an odd state, so
/// the draw is never zero.
pub proof fn lemma_odd_stays_odd(x: int, a: int)
    requires
        x % 2 == 1,
        a % 2 == 1,
    ensures
        lcg_next(x, a) % 2 == 1,
        0 < lcg_next(x, a) < R46,
{
    let m = R46 as int;
    let p = a * x;
    let xh = x / 2;
    let ah = a / 2;
    assert(p == 2 * (2 * (ah * xh) + ah + xh) + 1) by (nonlinear_arith)
        requires
            p == a * x,
            x == 2 * xh + 1,
            a == 2 * ah + 1,
    ;
    lemma_fundamental_div_mod(p, m);
    lemma_mod_bound(p, m);
    let q = p / m;
    assert(m * q == 2 * (0x2000_0000_0000 * q)) by (nonlinear_arith)
        requires
            m == 0x4000_0000_0000,
    ;
}
} // verus!
