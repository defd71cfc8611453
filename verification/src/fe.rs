//! Arithmetic in the SM2 prime field: 256-bit values as four 64-bit limbs,
//! always kept reduced modulo the field prime.

use vstd::prelude::*;
use vstd::arithmetic::power2::*;
use vstd::arithmetic::div_mod::*;
use vstd::arithmetic::mul::*;
use vstd::bits::*;
use vstd::calc;

verus! {

/// A field element: little-endian limbs, value `l0 + 2^64 l1 + 2^128 l2 + 2^192 l3`.
#[derive(Clone, Copy, Debug, PartialEq, Eq, Structural)]
pub struct Fe {
    pub l0: u64,
    pub l1: u64,
    pub l2: u64,
    pub l3: u64,
}

/// The integer a field element stands for.
pub open spec fn as_nat(x: Fe) -> nat {
    (x.l0 + 0x1_0000_0000_0000_0000int * x.l1 + 0x1_0000_0000_0000_0000_0000_0000_0000_0000int * x.l2
        + 0x1_0000_0000_0000_0000_0000_0000_0000_0000_0000_0000_0000_0000int * x.l3) as nat
}

/// The SM2 field prime `p = 2^256 - 2^224 - 2^96 + 2^64 - 1`.
pub open spec fn p_nat() -> nat {
    0xfffffffe_ffffffff_ffffffff_ffffffff_ffffffff_00000000_ffffffff_ffffffffint as nat
}

/// A field element is well formed when its value is reduced.
pub open spec fn fe_ok(x: Fe) -> bool {
    as_nat(x) < p_nat()
}

pub open spec fn limb(x: Fe, k: int) -> u64 {
    if k == 0 {
        x.l0
    } else if k == 1 {
        x.l1
    } else if k == 2 {
        x.l2
    } else {
        x.l3
    }
}

pub proof fn lemma_as_nat_bound(x: Fe)
    ensures
        as_nat(x) < 0x1_0000_0000_0000_0000_0000_0000_0000_0000_0000_0000_0000_0000_0000_0000_0000_0000int,
{
}

/// The powers of two at the limb boundaries, as literals.
pub proof fn lemma_pow2_limbs()
    ensures
        pow2(0) == 1,
        pow2(1) == 2,
        pow2(64) == 0x1_0000_0000_0000_0000int,
        pow2(128) == 0x1_0000_0000_0000_0000_0000_0000_0000_0000int,
        pow2(192) == 0x1_0000_0000_0000_0000_0000_0000_0000_0000_0000_0000_0000_0000int,
        pow2(256)
            == 0x1_0000_0000_0000_0000_0000_0000_0000_0000_0000_0000_0000_0000_0000_0000_0000_0000int,
{
    lemma2_to64();
    lemma_pow2_adds(64, 64);
    lemma_pow2_adds(128, 64);
    lemma_pow2_adds(192, 64);
}

/// A value's parity is the parity of its lowest limb.
pub proof fn lemma_parity(x: Fe)
    ensures
        as_nat(x) % 2 == x.l0 % 2,
{
    lemma_mod_multiples_vanish(
        (0x8000_0000_0000_0000 * x.l1 + 0x8000_0000_0000_0000_0000_0000_0000_0000int * x.l2
            + 0x8000_0000_0000_0000_0000_0000_0000_0000_0000_0000_0000_0000int * x.l3) as int,
        x.l0 as int,
        2,
    );
}

pub fn fe_zero() -> (r: Fe)
    ensures
        as_nat(r) == 0,
        fe_ok(r),
{
    Fe { l0: 0, l1: 0, l2: 0, l3: 0 }
}

pub fn fe_one() -> (r: Fe)
    ensures
        as_nat(r) == 1,
        fe_ok(r),
{
    Fe { l0: 1, l1: 0, l2: 0, l3: 0 }
}

/// The prime as a field-width constant (not itself a reduced element).
pub fn p_fe() -> (r: Fe)
    ensures
        as_nat(r) == p_nat(),
{
    Fe {
        l0: 0xffffffff_ffffffff,
        l1: 0xffffffff_00000000,
        l2: 0xffffffff_ffffffff,
        l3: 0xfffffffe_ffffffff,
    }
}

pub fn fe_eq(a: &Fe, b: &Fe) -> (r: bool)
    ensures
        r == (as_nat(*a) == as_nat(*b)),
{
    let r = a.l0 == b.l0 && a.l1 == b.l1 && a.l2 == b.l2 && a.l3 == b.l3;
    proof {
        if as_nat(*a) == as_nat(*b) {
            lemma_as_nat_inj(*a, *b);
        }
    }
    r
}

pub fn fe_is_zero(a: &Fe) -> (r: bool)
    ensures
        r == (as_nat(*a) == 0),
{
    a.l0 == 0 && a.l1 == 0 && a.l2 == 0 && a.l3 == 0
}

pub fn fe_is_one(a: &Fe) -> (r: bool)
    ensures
        r == (as_nat(*a) == 1),
{
    a.l0 == 1 && a.l1 == 0 && a.l2 == 0 && a.l3 == 0
}

/// Raw 256-bit addition; the second component is the carry out of the top limb.
pub fn add4(a: &Fe, b: &Fe) -> (r: (Fe, u64))
    ensures
        as_nat(r.0) + r.1 * 0x1_0000_0000_0000_0000_0000_0000_0000_0000_0000_0000_0000_0000_0000_0000_0000_0000int
            == as_nat(*a) + as_nat(*b),
        r.1 <= 1,
{
    let s0: u128 = a.l0 as u128 + b.l0 as u128;
    let r0: u64 = (s0 % 0x1_0000_0000_0000_0000u128) as u64;
    let c0: u64 = (s0 / 0x1_0000_0000_0000_0000u128) as u64;
    let s1: u128 = a.l1 as u128 + b.l1 as u128 + c0 as u128;
    let r1: u64 = (s1 % 0x1_0000_0000_0000_0000u128) as u64;
    let c1: u64 = (s1 / 0x1_0000_0000_0000_0000u128) as u64;
    let s2: u128 = a.l2 as u128 + b.l2 as u128 + c1 as u128;
    let r2: u64 = (s2 % 0x1_0000_0000_0000_0000u128) as u64;
    let c2: u64 = (s2 / 0x1_0000_0000_0000_0000u128) as u64;
    let s3: u128 = a.l3 as u128 + b.l3 as u128 + c2 as u128;
    let r3: u64 = (s3 % 0x1_0000_0000_0000_0000u128) as u64;
    let c3: u64 = (s3 / 0x1_0000_0000_0000_0000u128) as u64;
    (Fe { l0: r0, l1: r1, l2: r2, l3: r3 }, c3)
}

/// Raw 256-bit subtraction; the second component is the borrow out of the top limb.
pub fn sub4(a: &Fe, b: &Fe) -> (r: (Fe, u64))
    ensures
        as_nat(r.0) as int == as_nat(*a) - as_nat(*b)
            + r.1 * 0x1_0000_0000_0000_0000_0000_0000_0000_0000_0000_0000_0000_0000_0000_0000_0000_0000int,
        r.1 <= 1,
        r.1 == 0 <==> as_nat(*a) >= as_nat(*b),
{
    let t0: u128 = 0x1_0000_0000_0000_0000u128 + a.l0 as u128 - b.l0 as u128;
    let r0: u64 = (t0 % 0x1_0000_0000_0000_0000u128) as u64;
    let w0: u64 = 1 - (t0 / 0x1_0000_0000_0000_0000u128) as u64;
    let t1: u128 = 0x1_0000_0000_0000_0000u128 + a.l1 as u128 - b.l1 as u128 - w0 as u128;
    let r1: u64 = (t1 % 0x1_0000_0000_0000_0000u128) as u64;
    let w1: u64 = 1 - (t1 / 0x1_0000_0000_0000_0000u128) as u64;
    let t2: u128 = 0x1_0000_0000_0000_0000u128 + a.l2 as u128 - b.l2 as u128 - w1 as u128;
    let r2: u64 = (t2 % 0x1_0000_0000_0000_0000u128) as u64;
    let w2: u64 = 1 - (t2 / 0x1_0000_0000_0000_0000u128) as u64;
    let t3: u128 = 0x1_0000_0000_0000_0000u128 + a.l3 as u128 - b.l3 as u128 - w2 as u128;
    let r3: u64 = (t3 % 0x1_0000_0000_0000_0000u128) as u64;
    let w3: u64 = 1 - (t3 / 0x1_0000_0000_0000_0000u128) as u64;
    let out = Fe { l0: r0, l1: r1, l2: r2, l3: r3 };
    proof {
        lemma_as_nat_bound(out);
        lemma_as_nat_bound(*a);
        lemma_as_nat_bound(*b);
    }
    (out, w3)
}

/// Modular addition of reduced elements.
pub fn add_mod(a: &Fe, b: &Fe) -> (r: Fe)
    requires
        fe_ok(*a),
        fe_ok(*b),
    ensures
        fe_ok(r),
        as_nat(r) == (as_nat(*a) + as_nat(*b)) % p_nat(),
{
    let (t, c) = add4(a, b);
    let p = p_fe();
    let (s, brw) = sub4(&t, &p);
    let ghost v: int = as_nat(*a) as int + as_nat(*b) as int;
    if c == 1 || brw == 0 {
        proof {
            lemma_as_nat_bound(t);
            lemma_as_nat_bound(s);
            assert(v - p_nat() < p_nat());
            assert(as_nat(s) == v - p_nat());
            lemma_mod_sub_multiples_vanish(v, p_nat() as int);
            lemma_small_mod(as_nat(s), p_nat());
        }
        s
    } else {
        proof {
            assert(as_nat(t) == v);
            lemma_small_mod(as_nat(t), p_nat());
        }
        t
    }
}

/// Modular subtraction of reduced elements.
pub fn sub_mod(a: &Fe, b: &Fe) -> (r: Fe)
    requires
        fe_ok(*a),
        fe_ok(*b),
    ensures
        fe_ok(r),
        as_nat(r) as int == (as_nat(*a) - as_nat(*b)) % (p_nat() as int),
{
    let (d, brw) = sub4(a, b);
    let ghost v: int = as_nat(*a) as int - as_nat(*b) as int;
    if brw == 0 {
        proof {
            lemma_small_mod(as_nat(d), p_nat());
        }
        d
    } else {
        let p = p_fe();
        let (r2, c2) = add4(&d, &p);
        proof {
            lemma_as_nat_bound(r2);
            assert(c2 == 1);
            assert(as_nat(r2) == v + p_nat());
            lemma_mod_add_multiples_vanish(v, p_nat() as int);
            lemma_small_mod(as_nat(r2), p_nat());
        }
        r2
    }
}

/// How a limb's bits stand inside the whole value: dividing the value by
/// `2^(64 k + s)` and keeping `w` bits reads the same chunk as doing so on limb `k`.
pub proof fn lemma_fe_chunk(x: Fe, k: int, s: nat, w: nat)
    requires
        0 <= k < 4,
        0 < w,
        s + w <= 64,
    ensures
        (limb(x, k) as nat / pow2(s)) % pow2(w) == (as_nat(x) / pow2((64 * k + s) as nat)) % pow2(w),
{
    let l = limb(x, k) as nat;
    lemma_pow2_limbs();
    let lo: nat = if k == 0 {
        0
    } else if k == 1 {
        x.l0 as nat
    } else if k == 2 {
        (x.l0 + 0x1_0000_0000_0000_0000int * x.l1) as nat
    } else {
        (x.l0 + 0x1_0000_0000_0000_0000int * x.l1
            + 0x1_0000_0000_0000_0000_0000_0000_0000_0000int * x.l2) as nat
    };
    let hi: nat = if k == 0 {
        (x.l1 + 0x1_0000_0000_0000_0000int * x.l2
            + 0x1_0000_0000_0000_0000_0000_0000_0000_0000int * x.l3) as nat
    } else if k == 1 {
        (x.l2 + 0x1_0000_0000_0000_0000int * x.l3) as nat
    } else if k == 2 {
        x.l3 as nat
    } else {
        0
    };
    assert(lo < pow2((64 * k) as nat));
    if k == 0 {
        assert(as_nat(x) == pow2(0) * (l + 0x1_0000_0000_0000_0000int * hi) + lo);
    } else if k == 1 {
        assert(as_nat(x) == pow2(64) * (l + 0x1_0000_0000_0000_0000int * hi) + lo);
    } else if k == 2 {
        assert(as_nat(x) == pow2(128) * (l + 0x1_0000_0000_0000_0000int * hi) + lo);
    } else {
        assert(as_nat(x) == pow2(192) * (l + 0x1_0000_0000_0000_0000int * hi) + lo);
    }
    assert(as_nat(x) == pow2((64 * k) as nat) * (l + 0x1_0000_0000_0000_0000int * hi) + lo);
    lemma_pow2_pos((64 * k) as nat);
    lemma_div_multiples_vanish_fancy((l + 0x1_0000_0000_0000_0000int * hi) as int, lo as int, pow2(
        (64 * k) as nat,
    ) as int);
    assert(as_nat(x) / pow2((64 * k) as nat) == l + 0x1_0000_0000_0000_0000int * hi);
    // split off the shift inside the limb
    lemma_pow2_adds((64 * k) as nat, s);
    lemma_pow2_pos(s);
    lemma_div_denominator(as_nat(x) as int, pow2((64 * k) as nat) as int, pow2(s) as int);
    assert(as_nat(x) / pow2((64 * k + s) as nat) == ((l + 0x1_0000_0000_0000_0000int * hi) as nat) / pow2(s));
    // hoist the high part over the division
    lemma_pow2_adds(s, (64 - s) as nat);
    assert(pow2(s) * pow2((64 - s) as nat) == 0x1_0000_0000_0000_0000int);
    let j = pow2((64 - s) as nat) * hi;
    assert(j * pow2(s) == 0x1_0000_0000_0000_0000int * hi) by (nonlinear_arith)
        requires
            pow2(s) * pow2((64 - s) as nat) == 0x1_0000_0000_0000_0000int,
            j == pow2((64 - s) as nat) * hi,
    ;
    lemma_hoist_over_denominator(l as int, j as int, pow2(s));
    assert(((l + 0x1_0000_0000_0000_0000int * hi) as nat) / pow2(s) == l / pow2(s) + j);
    // the high part vanishes under the chunk modulus
    lemma_pow2_adds(w, (64 - s - w) as nat);
    let j2 = pow2((64 - s - w) as nat) * hi;
    assert(j == pow2(w) * j2) by (nonlinear_arith)
        requires
            pow2((64 - s) as nat) == pow2(w) * pow2((64 - s - w) as nat),
            j == pow2((64 - s) as nat) * hi,
            j2 == pow2((64 - s - w) as nat) * hi,
    ;
    lemma_pow2_pos(w);
    lemma_mod_multiples_vanish(j2 as int, (l / pow2(s)) as int, pow2(w) as int);
    assert((l / pow2(s) + pow2(w) * j2) % pow2(w) == (l / pow2(s)) % pow2(w));
}

/// Modular multiplication by binary double-and-add over the multiplier's bits.
pub fn mul_mod(a: &Fe, b: &Fe) -> (r: Fe)
    requires
        fe_ok(*a),
        fe_ok(*b),
    ensures
        fe_ok(r),
        as_nat(r) == (as_nat(*a) * as_nat(*b)) % p_nat(),
{
    let mut acc = fe_zero();
    let ghost nb: nat = as_nat(*b);
    let ghost na: nat = as_nat(*a);
    let mut j: usize = 256;
    proof {
        lemma_as_nat_bound(*b);
        lemma_pow2_limbs();
        lemma_basic_div(nb as int, pow2(256) as int);
        lemma_small_mod(0, p_nat());
        lemma_mul_basics(na as int);
    }
    while j > 0
        invariant
            j <= 256,
            fe_ok(*a),
            fe_ok(acc),
            na == as_nat(*a),
            nb == as_nat(*b),
            as_nat(acc) == (na * (nb / pow2(j as nat))) % p_nat(),
        decreases j,
    {
        j = j - 1;
        let k: usize = j / 64;
        let s: usize = j % 64;
        let l: u64 = if k == 0 {
            b.l0
        } else if k == 1 {
            b.l1
        } else if k == 2 {
            b.l2
        } else {
            b.l3
        };
        let bit: u64 = (l >> (s as u64)) & 1;
        let ghost m: nat = nb / pow2((j + 1) as nat);
        acc = add_mod(&acc, &acc);
        proof {
            lemma_mul_mod_noop_right(2, (na * m) as int, p_nat() as int);
        }
        let ghost m2: nat = nb / pow2(j as nat);
        proof {
            // the next bit extends the processed prefix
            lemma_pow2_adds(j as nat, 1);
            lemma_pow2_pos(j as nat);
            lemma_pow2_limbs();
            lemma_div_denominator(nb as int, pow2(j as nat) as int, 2);
            assert(m2 / 2 == m);
            assert(m2 == 2 * m + m2 % 2);
            // the extracted bit is that bit of the multiplier
            lemma_fe_chunk(*b, k as int, s as nat, 1);
            lemma_u64_shr_is_div(l, s as u64);
            assert((l >> (s as u64)) & 1 == (l >> (s as u64)) % 2) by (bit_vector);
            assert(64 * k + s == j);
            assert(bit as nat == m2 % 2);
        }
        if bit == 1 {
            acc = add_mod(&acc, a);
            proof {
                lemma_add_mod_noop((2 * (na * m)) as int, na as int, p_nat() as int);
                lemma_small_mod(na, p_nat());
                assert(na * m2 == 2 * (na * m) + na) by (nonlinear_arith)
                    requires
                        m2 == 2 * m + 1,
                ;
            }
        } else {
            proof {
                assert(na * m2 == 2 * (na * m)) by (nonlinear_arith)
                    requires
                        m2 == 2 * m,
                ;
            }
        }
    }
    proof {
        lemma2_to64();
        assert(nb / pow2(0) == nb);
    }
    acc
}

/// There is at most one reduced inverse of a value.
pub proof fn lemma_inv_unique(x: nat, r1: nat, r2: nat)
    requires
        r1 < p_nat(),
        r2 < p_nat(),
        (r1 * x) % p_nat() == 1,
        (r2 * x) % p_nat() == 1,
    ensures
        r1 == r2,
{
    let p = p_nat() as int;
    let a = r1 as int;
    let b = r2 as int;
    let xi = x as int;
    assert(a * (b * xi) == (a * xi) * b) by (nonlinear_arith);
    calc! {
        (==)
        a % p; {
            lemma_mul_basics(a);
        }
        (a * 1) % p; {
            lemma_mul_mod_noop_right(a, b * xi, p);
        }
        (a * (b * xi)) % p; {}
        ((a * xi) * b) % p; {
            lemma_mul_mod_noop_left(a * xi, b, p);
        }
        (((a * xi) % p) * b) % p; {}
        (1 * b) % p; {
            lemma_mul_basics(b);
        }
        b % p; {
            lemma_small_mod(r2, p_nat());
        }
        b;
    }
    lemma_small_mod(r1, p_nat());
}

/// Whether a value has a modular inverse, and the inverse itself.
pub open spec fn has_inv(x: nat) -> bool {
    exists|r: nat| r < p_nat() && #[trigger] ((r * x) % p_nat()) == 1
}

pub open spec fn fe_inv_spec(x: nat) -> nat {
    choose|r: nat| r < p_nat() && #[trigger] ((r * x) % p_nat()) == 1
}

/// Halve a 257-bit even value.
fn halve5(c: u64, x: &Fe) -> (r: Fe)
    requires
        c <= 1,
        (c * 0x1_0000_0000_0000_0000_0000_0000_0000_0000_0000_0000_0000_0000_0000_0000_0000_0000int
            + as_nat(*x)) % 2 == 0,
    ensures
        as_nat(r) == (c * 0x1_0000_0000_0000_0000_0000_0000_0000_0000_0000_0000_0000_0000_0000_0000_0000_0000int
            + as_nat(*x)) / 2,
{
    let r0: u64 = x.l0 / 2 + (x.l1 % 2) * 0x8000_0000_0000_0000;
    let r1: u64 = x.l1 / 2 + (x.l2 % 2) * 0x8000_0000_0000_0000;
    let r2: u64 = x.l2 / 2 + (x.l3 % 2) * 0x8000_0000_0000_0000;
    let r3: u64 = x.l3 / 2 + c * 0x8000_0000_0000_0000;
    let out = Fe { l0: r0, l1: r1, l2: r2, l3: r3 };
    proof {
        let v = c * 0x1_0000_0000_0000_0000_0000_0000_0000_0000_0000_0000_0000_0000_0000_0000_0000_0000int
            + as_nat(*x);
        assert(x.l0 % 2 == 0);
        assert(2 * as_nat(out) == v);
    }
    out
}

/// Halving modulo the prime, on values.
pub open spec fn hmod(x: nat) -> nat {
    if x % 2 == 0 {
        x / 2
    } else {
        ((x + p_nat()) / 2) as nat
    }
}

/// Subtraction modulo the prime, on values.
pub open spec fn subp(a: nat, b: nat) -> nat {
    (((a - b) % (p_nat() as int))) as nat
}

/// The inversion loop, step for step: binary extended Euclid on `u` and `v`
/// with the Bezout coefficients `r1` and `r2` kept modulo the prime. This is
/// the exact model of what the computed loop does with each state.
pub open spec fn inv_loop(u: nat, v: nat, r1: nat, r2: nat, fuel: nat) -> Option<nat>
    decreases fuel,
{
    if fuel == 0 {
        None
    } else if u == 1 {
        Some(r1)
    } else if v == 1 {
        Some(r2)
    } else if u == 0 || v == 0 {
        None
    } else if u % 2 == 0 {
        inv_loop(u / 2, v, hmod(r1), r2, (fuel - 1) as nat)
    } else if v % 2 == 0 {
        inv_loop(u, v / 2, r1, hmod(r2), (fuel - 1) as nat)
    } else if u >= v {
        inv_loop((u - v) as nat, v, subp(r1, r2), r2, (fuel - 1) as nat)
    } else {
        inv_loop(u, (v - u) as nat, r1, subp(r2, r1), (fuel - 1) as nat)
    }
}

/// What the inversion loop computes for a given input.
pub open spec fn euclid_inv(x: nat) -> Option<nat> {
    inv_loop(x, p_nat(), 1, 0, 2000)
}

/// Whether inversion succeeds on a value: the loop finds a candidate and the
/// verifying multiplication confirms it. Deciding this needs no more than
/// running the algorithm, and every failure of `fe_inv` is pinned to it.
pub open spec fn inv_found(x: nat) -> bool {
    match euclid_inv(x) {
        Some(c) => (c * x) % p_nat() == 1,
        None => false,
    }
}

/// Halve modulo the prime: even values are halved, odd ones have the prime added first.
fn half_mod(x: &Fe) -> (r: Fe)
    requires
        fe_ok(*x),
    ensures
        fe_ok(r),
        as_nat(r) == hmod(as_nat(*x)),
{
    let p = p_fe();
    if x.l0 % 2 == 0 {
        proof {
            lemma_parity(*x);
        }
        let r = halve5(0, x);
        proof {
            assert(as_nat(r) == as_nat(*x) / 2);
            assert(as_nat(*x) / 2 <= as_nat(*x));
        }
        r
    } else {
        let (t, c) = add4(x, &p);
        proof {
            lemma_parity(*x);
            assert(as_nat(*x) % 2 == 1);
        }
        let r = halve5(c, &t);
        proof {
            let v = as_nat(*x) + p_nat();
            assert(v % 2 == 0);
            assert(as_nat(r) == v / 2);
            assert(v < 2 * p_nat());
            assert(2 * (v / 2) == v);
        }
        r
    }
}

/// Modular inverse by the binary extended Euclidean algorithm. The loop is
/// proved to walk `inv_loop` state for state, and the candidate it finds is
/// multiplied back against the input, so the answer is `Some` exactly when
/// the modelled run certifies an inverse -- and then it is the true inverse.
pub fn fe_inv(x: &Fe) -> (r: Option<Fe>)
    requires
        fe_ok(*x),
        as_nat(*x) != 0,
    ensures
        r is Some <==> inv_found(as_nat(*x)),
        match r {
            Some(iv) => fe_ok(iv) && has_inv(as_nat(*x)) && as_nat(iv) == fe_inv_spec(as_nat(*x))
                && (as_nat(iv) * as_nat(*x)) % p_nat() == 1,
            None => true,
        },
{
    let ghost nx: nat = as_nat(*x);
    let mut u = *x;
    let mut v = p_fe();
    let mut r1 = fe_one();
    let mut r2 = fe_zero();
    let mut cand: Option<Fe> = None;
    let mut done: bool = false;
    let mut i: usize = 0;
    while i < 2000 && !done
        invariant
            i <= 2000,
            fe_ok(r1),
            fe_ok(r2),
            fe_ok(*x),
            nx == as_nat(*x),
            !done ==> cand is None,
            !done ==> euclid_inv(nx) == inv_loop(
                as_nat(u),
                as_nat(v),
                as_nat(r1),
                as_nat(r2),
                (2000 - i) as nat,
            ),
            done ==> (cand matches Some(cv) && fe_ok(cv) && euclid_inv(nx) == Some(as_nat(cv))),
        decreases 2000 - i,
    {
        let ghost nu: nat = as_nat(u);
        let ghost nv: nat = as_nat(v);
        let ghost nr1: nat = as_nat(r1);
        let ghost nr2: nat = as_nat(r2);
        let ghost fuel: nat = (2000 - i) as nat;
        proof {
            lemma_parity(u);
            lemma_parity(v);
        }
        i = i + 1;
        if fe_is_one(&u) {
            cand = Some(r1);
            done = true;
            proof {
                assert(inv_loop(nu, nv, nr1, nr2, fuel) == Some(nr1));
            }
        } else if fe_is_one(&v) {
            cand = Some(r2);
            done = true;
            proof {
                assert(inv_loop(nu, nv, nr1, nr2, fuel) == Some(nr2));
            }
        } else if fe_is_zero(&u) || fe_is_zero(&v) {
            // the values were not coprime; the modelled run finds nothing
            proof {
                assert(inv_loop(nu, nv, nr1, nr2, fuel) == None::<nat>);
            }
            return None;
        } else if u.l0 % 2 == 0 {
            u = halve5(0, &u);
            r1 = half_mod(&r1);
            proof {
                assert(inv_loop(nu, nv, nr1, nr2, fuel) == inv_loop(
                    nu / 2,
                    nv,
                    hmod(nr1),
                    nr2,
                    (fuel - 1) as nat,
                ));
            }
        } else if v.l0 % 2 == 0 {
            v = halve5(0, &v);
            r2 = half_mod(&r2);
            proof {
                assert(inv_loop(nu, nv, nr1, nr2, fuel) == inv_loop(
                    nu,
                    nv / 2,
                    nr1,
                    hmod(nr2),
                    (fuel - 1) as nat,
                ));
            }
        } else {
            let (d, brw) = sub4(&u, &v);
            if brw == 0 {
                u = d;
                r1 = sub_mod(&r1, &r2);
                proof {
                    assert(inv_loop(nu, nv, nr1, nr2, fuel) == inv_loop(
                        (nu - nv) as nat,
                        nv,
                        subp(nr1, nr2),
                        nr2,
                        (fuel - 1) as nat,
                    ));
                }
            } else {
                let (d2, _brw2) = sub4(&v, &u);
                v = d2;
                r2 = sub_mod(&r2, &r1);
                proof {
                    assert(inv_loop(nu, nv, nr1, nr2, fuel) == inv_loop(
                        nu,
                        (nv - nu) as nat,
                        nr1,
                        subp(nr2, nr1),
                        (fuel - 1) as nat,
                    ));
                }
            }
        }
    }
    match cand {
        None => {
            proof {
                assert(!done);
                assert(euclid_inv(nx) == inv_loop(as_nat(u), as_nat(v), as_nat(r1), as_nat(r2), 0));
            }
            None
        },
        Some(c0) => {
            let chk = mul_mod(&c0, x);
            if fe_is_one(&chk) {
                proof {
                    assert((as_nat(c0) * nx) % p_nat() == 1);
                    assert(has_inv(nx));
                    let w = fe_inv_spec(nx);
                    assert(w < p_nat() && (w * nx) % p_nat() == 1);
                    lemma_inv_unique(nx, as_nat(c0), w);
                    assert(inv_found(nx));
                }
                Some(c0)
            } else {
                proof {
                    assert(!inv_found(nx));
                }
                None
            }
        },
    }
}


/// Two limb vectors with the same value are the same limbs.
pub proof fn lemma_as_nat_inj(a: Fe, b: Fe)
    requires
        as_nat(a) == as_nat(b),
    ensures
        a == b,
{
    lemma_pow2_limbs();
    lemma_fe_chunk(a, 0, 0, 64);
    lemma_fe_chunk(b, 0, 0, 64);
    lemma_fe_chunk(a, 1, 0, 64);
    lemma_fe_chunk(b, 1, 0, 64);
    lemma_fe_chunk(a, 2, 0, 64);
    lemma_fe_chunk(b, 2, 0, 64);
    lemma_fe_chunk(a, 3, 0, 64);
    lemma_fe_chunk(b, 3, 0, 64);
    lemma_small_mod(a.l0 as nat, pow2(64));
    lemma_small_mod(b.l0 as nat, pow2(64));
    lemma_small_mod(a.l1 as nat, pow2(64));
    lemma_small_mod(b.l1 as nat, pow2(64));
    lemma_small_mod(a.l2 as nat, pow2(64));
    lemma_small_mod(b.l2 as nat, pow2(64));
    lemma_small_mod(a.l3 as nat, pow2(64));
    lemma_small_mod(b.l3 as nat, pow2(64));
    assert(a.l0 == b.l0 && a.l1 == b.l1 && a.l2 == b.l2 && a.l3 == b.l3);
}

/// The big-endian byte at position `j` of a 256-bit value.
pub open spec fn be_byte_of(v: nat, j: int) -> u8 {
    ((v / pow2((248 - 8 * j) as nat)) % 256) as u8
}

/// The 32-byte big-endian form of a field-width value.
pub open spec fn fe_bytes(x: Fe) -> Seq<u8> {
    Seq::new(32, |j: int| be_byte_of(as_nat(x), j))
}

/// Serialize as 32 big-endian bytes.
pub fn fe_to_bytes(x: &Fe) -> (r: Vec<u8>)
    ensures
        r@.len() == 32,
        r@ == fe_bytes(*x),
{
    let mut out: Vec<u8> = Vec::new();
    let mut j: usize = 0;
    while j < 32
        invariant
            j <= 32,
            out@.len() == j,
            forall|i: int| 0 <= i < j ==> out@[i] == be_byte_of(as_nat(*x), i),
        decreases 32 - j,
    {
        let k: usize = 3 - j / 8;
        let t: usize = j % 8;
        let l: u64 = if k == 0 {
            x.l0
        } else if k == 1 {
            x.l1
        } else if k == 2 {
            x.l2
        } else {
            x.l3
        };
        let amt: u64 = (56 - 8 * t) as u64;
        let b: u8 = ((l >> amt) & 0xff) as u8;
        proof {
            lemma_pow2_limbs();
            lemma2_to64();
            lemma_u64_shr_is_div(l, amt);
            lemma_low_bits_mask_values();
            lemma_u64_low_bits_mask_is_mod(l >> amt, 8);
            lemma_fe_chunk(*x, k as int, amt as nat, 8);
            lemma_pow2_pos(amt as nat);
            lemma_mod_division_less_than_divisor((l as nat / pow2(amt as nat)) as int, 256);
            assert(64 * k + amt == 248 - 8 * j);
            assert(b as nat == (as_nat(*x) / pow2((248 - 8 * (j as int)) as nat)) % 256);
        }
        out.push(b);
        assert(forall|i: int| 0 <= i < j + 1 ==> out@[i] == be_byte_of(as_nat(*x), i));
        j = j + 1;
    }
    proof {
        assert(out@ =~= fe_bytes(*x));
    }
    out
}

/// The value of a big-endian byte string.
pub open spec fn nat_of_be(s: Seq<u8>) -> nat
    decreases s.len(),
{
    if s.len() == 0 {
        0
    } else {
        (nat_of_be(s.drop_last()) * 256 + s.last()) as nat
    }
}

pub proof fn lemma_nat_of_be_bound(s: Seq<u8>)
    ensures
        nat_of_be(s) < pow2(8 * s.len()),
    decreases s.len(),
{
    if s.len() == 0 {
        lemma_pow2_limbs();
    } else {
        lemma_nat_of_be_bound(s.drop_last());
        lemma_pow2_adds(8 * (s.len() - 1) as nat, 8);
        lemma2_to64();
        assert(pow2(8 * s.len()) == pow2(8 * (s.len() - 1) as nat) * 256);
        assert(nat_of_be(s.drop_last()) * 256 + s.last() < pow2(8 * (s.len() - 1) as nat) * 256)
            by (nonlinear_arith)
            requires
                nat_of_be(s.drop_last()) < pow2(8 * (s.len() - 1) as nat),
                s.last() < 256,
        ;
    }
}

/// Shift a value one byte up and bring a new low byte in.
fn mul256_add(x: &Fe, b: u8) -> (r: Fe)
    requires
        x.l3 < 0x100_0000_0000_0000,
    ensures
        as_nat(r) == as_nat(*x) * 256 + b,
{
    let r0: u64 = (x.l0 % 0x100_0000_0000_0000) * 256 + b as u64;
    let r1: u64 = (x.l1 % 0x100_0000_0000_0000) * 256 + x.l0 / 0x100_0000_0000_0000;
    let r2: u64 = (x.l2 % 0x100_0000_0000_0000) * 256 + x.l1 / 0x100_0000_0000_0000;
    let r3: u64 = x.l3 * 256 + x.l2 / 0x100_0000_0000_0000;
    Fe { l0: r0, l1: r1, l2: r2, l3: r3 }
}

/// Parse 32 big-endian bytes; the result may not be reduced.
pub fn fe_from_bytes(s: &[u8]) -> (r: Fe)
    requires
        s@.len() == 32,
    ensures
        as_nat(r) == nat_of_be(s@),
{
    let mut acc = fe_zero();
    let mut i: usize = 0;
    proof {
        assert(s@.take(0) =~= Seq::<u8>::empty());
        lemma_pow2_limbs();
    }
    while i < 32
        invariant
            i <= 32,
            s@.len() == 32,
            as_nat(acc) == nat_of_be(s@.take(i as int)),
            as_nat(acc) < pow2(8 * i as nat),
        decreases 32 - i,
    {
        proof {
            lemma_pow2_limbs();
            if acc.l3 >= 0x100_0000_0000_0000 {
                assert(as_nat(acc)
                    >= 0x100_0000_0000_0000int
                    * 0x1_0000_0000_0000_0000_0000_0000_0000_0000_0000_0000_0000_0000int);
                lemma_pow2_adds(8 * i as nat, 8 * (32 - i) as nat);
                lemma_pow2_pos(8 * (32 - i) as nat);
                assert(pow2(8 * i as nat) <= pow2(248)) by {
                    if (8 * (i as nat)) < 248 {
                        lemma_pow2_strictly_increases(8 * i as nat, 248);
                    }
                }
                lemma2_to64();
                lemma2_to64_rest();
                lemma_pow2_adds(192, 56);
                assert(as_nat(acc) < pow2(248));
                assert(false);
            }
        }
        let b: u8 = s[i];
        acc = mul256_add(&acc, b);
        proof {
            assert(s@.take(i + 1).drop_last() =~= s@.take(i as int));
            assert(s@.take(i + 1).last() == s@[i as int]);
            lemma_pow2_adds(8 * i as nat, 8);
            lemma2_to64();
            assert(as_nat(acc) < pow2(8 * (i + 1) as nat)) by (nonlinear_arith)
                requires
                    as_nat(acc) == nat_of_be(s@.take(i as int)) * 256 + s@[i as int],
                    nat_of_be(s@.take(i as int)) < pow2(8 * i as nat),
                    s@[i as int] < 256,
                    pow2(8 * (i + 1) as nat) == pow2(8 * i as nat) * pow2(8),
                    pow2(8) == 256,
            ;
        }
        i = i + 1;
    }
    proof {
        assert(s@.take(32) =~= s@);
    }
    acc
}


/// Horner evaluation of the positional big-endian bytes of a value.
pub proof fn lemma_nat_of_be_positional(v: nat, n: nat)
    ensures
        nat_of_be(Seq::new(n, |j: int| ((v / pow2((8 * (n - 1 - j)) as nat)) % 256) as u8)) == v
            % pow2(8 * n),
    decreases n,
{
    let s = Seq::new(n, |j: int| ((v / pow2((8 * (n - 1 - j)) as nat)) % 256) as u8);
    if n == 0 {
        lemma_pow2_limbs();
        assert(s =~= Seq::<u8>::empty());
    } else {
        let v2 = v / 256;
        let s2 = Seq::new(
            (n - 1) as nat,
            |j: int| ((v2 / pow2((8 * (n - 2 - j)) as nat)) % 256) as u8,
        );
        assert forall|j: int| 0 <= j < n - 1 implies s[j] == s2[j] by {
            lemma_pow2_adds(8, (8 * (n - 2 - j)) as nat);
            lemma_pow2_pos((8 * (n - 2 - j)) as nat);
            lemma2_to64();
            lemma_div_denominator(v as int, 256, pow2((8 * (n - 2 - j)) as nat) as int);
            assert(v2 / pow2((8 * (n - 2 - j)) as nat) == v / pow2((8 * (n - 1 - j)) as nat));
        }
        assert(s.drop_last() =~= s2);
        lemma_nat_of_be_positional(v2, (n - 1) as nat);
        assert(nat_of_be(s2) == v2 % pow2(8 * (n - 1) as nat));
        lemma_pow2_limbs();
        assert(s.last() == ((v / pow2(0)) % 256) as u8);
        assert(v / pow2(0) == v);
        lemma_pow2_adds(8, 8 * (n - 1) as nat);
        lemma2_to64();
        lemma_pow2_pos(8 * (n - 1) as nat);
        lemma_mod_breakdown(v as int, 256, pow2(8 * (n - 1) as nat) as int);
        assert(v as int % (pow2(8 * n) as int) == 256 * ((v as int / 256) % (pow2(8 * (n - 1) as nat) as int)) + v as int % 256);
        assert(nat_of_be(s) == nat_of_be(s2) * 256 + s.last());
    }
}

/// Parsing the 32 big-endian bytes of a reduced value gives the value back.
pub proof fn lemma_be_bytes32_roundtrip(v: nat)
    requires
        v < pow2(256),
    ensures
        nat_of_be(Seq::new(32, |j: int| be_byte_of(v, j))) == v,
{
    let s = Seq::new(32, |j: int| be_byte_of(v, j));
    let s2 = Seq::new(32nat, |j: int| ((v / pow2((8 * (32 - 1 - j)) as nat)) % 256) as u8);
    assert(s =~= s2);
    lemma_nat_of_be_positional(v, 32);
    lemma_small_mod(v, pow2(256));
}

} // verus!
