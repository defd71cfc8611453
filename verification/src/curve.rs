//! The SM2 elliptic curve: affine points, point addition by the standard
//! tangent-and-chord formulas, and double-and-add scalar multiplication.

use vstd::prelude::*;
use vstd::arithmetic::div_mod::*;
use vstd::arithmetic::power2::*;
use vstd::bits::*;
use crate::fe::{
    add_mod, as_nat, fe_eq, fe_inv, fe_inv_spec, fe_is_zero, fe_ok, has_inv, inv_found,
    lemma_as_nat_bound, lemma_fe_chunk, lemma_pow2_limbs, mul_mod, p_nat, sub_mod, Fe,
};
use crate::SmError;

verus! {

/// A point in its mathematical form: the value pairs are field integers.
pub enum PtN {
    Inf,
    At(nat, nat),
}

/// A curve point as computed with: affine coordinates or the point at infinity.
#[derive(Clone, Copy, Debug, PartialEq, Eq, Structural)]
pub enum CurvePoint {
    Infinity,
    Affine(Fe, Fe),
}

pub open spec fn pt_view(p: CurvePoint) -> PtN {
    match p {
        CurvePoint::Infinity => PtN::Inf,
        CurvePoint::Affine(x, y) => PtN::At(as_nat(x), as_nat(y)),
    }
}

pub open spec fn pt_ok(p: CurvePoint) -> bool {
    match p {
        CurvePoint::Infinity => true,
        CurvePoint::Affine(x, y) => fe_ok(x) && fe_ok(y),
    }
}

/// Field addition, subtraction, multiplication and division, over integers.
pub open spec fn fadd(a: nat, b: nat) -> nat {
    (a + b) % p_nat()
}

pub open spec fn fsub(a: nat, b: nat) -> nat {
    (((a - b) % (p_nat() as int))) as nat
}

pub open spec fn fmul(a: nat, b: nat) -> nat {
    (a * b) % p_nat()
}

pub open spec fn fdiv(a: nat, b: nat) -> nat {
    if has_inv(b) {
        fmul(a, fe_inv_spec(b))
    } else {
        0
    }
}

/// The coefficient `a` of the curve equation: `p - 3`.
pub open spec fn a_nat() -> nat {
    0xfffffffe_ffffffff_ffffffff_ffffffff_ffffffff_00000000_ffffffff_fffffffcint as nat
}

/// The coefficient `b` of the curve equation.
pub open spec fn b_nat() -> nat {
    0x28e9fa9e_9d9f5e34_4d5a9e4b_cf6509a7_f39789f5_15ab8f92_ddbcbd41_4d940e93int as nat
}

/// The base point's coordinates.
pub open spec fn gx_nat() -> nat {
    0x32c4ae2c_1f198119_5f990446_6a39c994_8fe30bbf_f2660be1_715a4589_334c74c7int as nat
}

pub open spec fn gy_nat() -> nat {
    0xbc3736a2_f4f6779c_59bdcee3_6b692153_d0a9877c_c62a4740_02df32e5_2139f0a0int as nat
}

/// The order of the group generated by the base point.
pub open spec fn n_nat() -> nat {
    0xfffffffe_ffffffff_ffffffff_ffffffff_7203df6b_21c6052b_53bbf409_39d54123int as nat
}

pub fn a_fe() -> (r: Fe)
    ensures
        as_nat(r) == a_nat(),
        fe_ok(r),
{
    Fe {
        l0: 0xffffffff_fffffffc,
        l1: 0xffffffff_00000000,
        l2: 0xffffffff_ffffffff,
        l3: 0xfffffffe_ffffffff,
    }
}

pub fn b_fe() -> (r: Fe)
    ensures
        as_nat(r) == b_nat(),
        fe_ok(r),
{
    Fe {
        l0: 0xddbcbd41_4d940e93,
        l1: 0xf39789f5_15ab8f92,
        l2: 0x4d5a9e4b_cf6509a7,
        l3: 0x28e9fa9e_9d9f5e34,
    }
}

pub fn n_fe() -> (r: Fe)
    ensures
        as_nat(r) == n_nat(),
        fe_ok(r),
{
    Fe {
        l0: 0x53bbf409_39d54123,
        l1: 0x7203df6b_21c6052b,
        l2: 0xffffffff_ffffffff,
        l3: 0xfffffffe_ffffffff,
    }
}

/// The base point.
pub fn g_pt() -> (r: CurvePoint)
    ensures
        pt_ok(r),
        pt_view(r) == PtN::At(gx_nat(), gy_nat()),
{
    CurvePoint::Affine(
        Fe {
            l0: 0x715a4589_334c74c7,
            l1: 0x8fe30bbf_f2660be1,
            l2: 0x5f990446_6a39c994,
            l3: 0x32c4ae2c_1f198119,
        },
        Fe {
            l0: 0x02df32e5_2139f0a0,
            l1: 0xd0a9877c_c62a4740,
            l2: 0x59bdcee3_6b692153,
            l3: 0xbc3736a2_f4f6779c,
        },
    )
}

/// Whether a point satisfies `y^2 = x^3 + a x + b` over the field.
pub open spec fn on_curve_n(p: PtN) -> bool {
    match p {
        PtN::Inf => true,
        PtN::At(x, y) => x < p_nat() && y < p_nat() && fmul(y, y) == fadd(
            fmul(fmul(x, x), x),
            fadd(fmul(a_nat(), x), b_nat()),
        ),
    }
}

/// Check the curve equation by computation.
pub fn on_curve(p: &CurvePoint) -> (r: bool)
    requires
        pt_ok(*p),
    ensures
        r == on_curve_n(pt_view(*p)),
{
    match p {
        CurvePoint::Infinity => true,
        CurvePoint::Affine(x, y) => {
            let lhs = mul_mod(y, y);
            let x3 = mul_mod(&mul_mod(x, x), x);
            let ax = mul_mod(&a_fe(), x);
            let rhs = add_mod(&x3, &add_mod(&ax, &b_fe()));
            fe_eq(&lhs, &rhs)
        },
    }
}

/// Point addition in the mathematical model: the affine chord-and-tangent
/// formulas, with the vertical cases sent to infinity.
pub open spec fn pt_add_n(p1: PtN, p2: PtN) -> PtN {
    match (p1, p2) {
        (PtN::Inf, q) => q,
        (q, PtN::Inf) => q,
        (PtN::At(x1, y1), PtN::At(x2, y2)) => {
            if x1 == x2 {
                if fadd(y1, y2) == 0 {
                    PtN::Inf
                } else {
                    let lam = fdiv(fadd(fmul(3, fmul(x1, x1)), a_nat()), fadd(y1, y1));
                    let x3 = fsub(fsub(fmul(lam, lam), x1), x1);
                    PtN::At(x3, fsub(fmul(lam, fsub(x1, x3)), y1))
                }
            } else {
                let lam = fdiv(fsub(y2, y1), fsub(x2, x1));
                let x3 = fsub(fsub(fmul(lam, lam), x1), x2);
                PtN::At(x3, fsub(fmul(lam, fsub(x1, x3)), y1))
            }
        },
    }
}

/// A nonzero difference of two reduced values is nonzero modulo the prime.
proof fn lemma_fsub_nonzero(a: nat, b: nat)
    requires
        a < p_nat(),
        b < p_nat(),
        a != b,
    ensures
        fsub(a, b) != 0,
{
    let p = p_nat() as int;
    if a > b {
        lemma_small_mod((a - b) as nat, p_nat());
    } else {
        lemma_mod_add_multiples_vanish(a - b, p);
        lemma_small_mod((a - b + p) as nat, p_nat());
    }
}

/// Whether the computed point addition fails: a vertical tangent off the
/// curve, or a field inverse the modelled inversion run does not certify.
pub open spec fn pt_add_fails(p1: PtN, p2: PtN) -> bool {
    match (p1, p2) {
        (PtN::Inf, _) => false,
        (_, PtN::Inf) => false,
        (PtN::At(x1, y1), PtN::At(x2, y2)) => if x1 == x2 {
            if fadd(y1, y2) == 0 {
                false
            } else {
                fadd(y1, y1) == 0 || !inv_found(fadd(y1, y1))
            }
        } else {
            !inv_found(fsub(x2, x1))
        },
    }
}

/// Point addition; succeeds exactly where the model says no inversion fails.
pub fn pt_add(p1: &CurvePoint, p2: &CurvePoint) -> (r: Result<CurvePoint, SmError>)
    requires
        pt_ok(*p1),
        pt_ok(*p2),
    ensures
        r is Ok <==> !pt_add_fails(pt_view(*p1), pt_view(*p2)),
        match r {
            Ok(q) => pt_ok(q) && pt_view(q) == pt_add_n(pt_view(*p1), pt_view(*p2)),
            Err(e) => e == SmError::InvalidOperand,
        },
{
    match p1 {
        CurvePoint::Infinity => Ok(*p2),
        CurvePoint::Affine(x1, y1) => {
            match p2 {
                CurvePoint::Infinity => Ok(*p1),
                CurvePoint::Affine(x2, y2) => {
                    if fe_eq(x1, x2) {
                        let ys = add_mod(y1, y2);
                        if fe_is_zero(&ys) {
                            Ok(CurvePoint::Infinity)
                        } else {
                            let three = Fe { l0: 3, l1: 0, l2: 0, l3: 0 };
                            let num = add_mod(&mul_mod(&three, &mul_mod(x1, x1)), &a_fe());
                            let den = add_mod(y1, y1);
                            if fe_is_zero(&den) {
                                return Err(SmError::InvalidOperand);
                            }
                            match fe_inv(&den) {
                                None => Err(SmError::InvalidOperand),
                                Some(iv) => {
                                    let lam = mul_mod(&num, &iv);
                                    let x3 = sub_mod(&sub_mod(&mul_mod(&lam, &lam), x1), x1);
                                    let y3 = sub_mod(&mul_mod(&lam, &sub_mod(x1, &x3)), y1);
                                    Ok(CurvePoint::Affine(x3, y3))
                                },
                            }
                        }
                    } else {
                        let dx = sub_mod(x2, x1);
                        proof {
                            lemma_fsub_nonzero(as_nat(*x2), as_nat(*x1));
                        }
                        match fe_inv(&dx) {
                            None => Err(SmError::InvalidOperand),
                            Some(iv) => {
                                let dy = sub_mod(y2, y1);
                                let lam = mul_mod(&dy, &iv);
                                let x3 = sub_mod(&sub_mod(&mul_mod(&lam, &lam), x1), x2);
                                let y3 = sub_mod(&mul_mod(&lam, &sub_mod(x1, &x3)), y1);
                                Ok(CurvePoint::Affine(x3, y3))
                            },
                        }
                    }
                },
            }
        },
    }
}

/// Scalar multiplication in the mathematical model, by halving the scalar.
pub open spec fn pt_mul_n(k: nat, p: PtN) -> PtN
    decreases k,
{
    if k == 0 {
        PtN::Inf
    } else {
        let h = pt_mul_n(k / 2, p);
        let d = pt_add_n(h, h);
        if k % 2 == 1 {
            pt_add_n(d, p)
        } else {
            d
        }
    }
}

/// Scalar multiplication with failure threaded through: the result of the
/// double-and-add run, or nothing where one of its point additions fails.
pub open spec fn pt_mul_f(k: nat, p: PtN) -> Option<PtN>
    decreases k,
{
    if k == 0 {
        Some(PtN::Inf)
    } else {
        match pt_mul_f(k / 2, p) {
            None => None,
            Some(h) => if pt_add_fails(h, h) {
                None
            } else {
                let d = pt_add_n(h, h);
                if k % 2 == 1 {
                    if pt_add_fails(d, p) {
                        None
                    } else {
                        Some(pt_add_n(d, p))
                    }
                } else {
                    Some(d)
                }
            },
        }
    }
}

/// When the threaded run succeeds, it computes the plain model's point.
pub proof fn lemma_pt_mul_f_some(k: nat, p: PtN)
    requires
        pt_mul_f(k, p) is Some,
    ensures
        pt_mul_f(k, p) == Some(pt_mul_n(k, p)),
    decreases k,
{
    if k > 0 {
        lemma_pt_mul_f_some(k / 2, p);
    }
}

/// A failure among the leading bits is a failure of the whole run.
proof fn lemma_pt_mul_f_none_up(k: nat, j: nat, p: PtN)
    requires
        pt_mul_f(k / pow2(j), p) is None,
    ensures
        pt_mul_f(k, p) is None,
    decreases j,
{
    lemma_pow2_limbs();
    if j == 0 {
        assert(k / pow2(0) == k);
    } else {
        lemma_pow2_adds((j - 1) as nat, 1);
        lemma_pow2_pos((j - 1) as nat);
        lemma_div_denominator(k as int, pow2((j - 1) as nat) as int, 2);
        let m = k / pow2((j - 1) as nat);
        assert(m / 2 == k / pow2(j));
        if m == 0 {
            assert(k / pow2(j) == 0);
            assert(pt_mul_f(0, p) == Some(PtN::Inf));
        } else {
            assert(pt_mul_f(m, p) is None);
            lemma_pt_mul_f_none_up(k, (j - 1) as nat, p);
        }
    }
}

/// Left-to-right double-and-add over the scalar's bits; succeeds exactly
/// where the threaded model run does.
pub fn pt_mul(k: &Fe, p: &CurvePoint) -> (r: Result<CurvePoint, SmError>)
    requires
        pt_ok(*p),
    ensures
        r is Ok <==> pt_mul_f(as_nat(*k), pt_view(*p)) is Some,
        match r {
            Ok(q) => pt_ok(q) && pt_view(q) == pt_mul_n(as_nat(*k), pt_view(*p)) && pt_mul_f(
                as_nat(*k),
                pt_view(*p),
            ) == Some(pt_view(q)),
            Err(e) => e == SmError::InvalidOperand,
        },
{
    let mut acc = CurvePoint::Infinity;
    let ghost nk: nat = as_nat(*k);
    let ghost pv: PtN = pt_view(*p);
    let mut j: usize = 256;
    proof {
        lemma_as_nat_bound(*k);
        lemma_pow2_limbs();
        lemma_basic_div(nk as int, pow2(256) as int);
    }
    while j > 0
        invariant
            j <= 256,
            pt_ok(*p),
            pt_ok(acc),
            nk == as_nat(*k),
            pv == pt_view(*p),
            pt_mul_f(nk / pow2(j as nat), pv) == Some(pt_view(acc)),
        decreases j,
    {
        j = j - 1;
        let ki: usize = j / 64;
        let s: usize = j % 64;
        let l: u64 = if ki == 0 {
            k.l0
        } else if ki == 1 {
            k.l1
        } else if ki == 2 {
            k.l2
        } else {
            k.l3
        };
        let bit: u64 = (l >> (s as u64)) & 1;
        let ghost m: nat = nk / pow2((j + 1) as nat);
        let ghost m2: nat = nk / pow2(j as nat);
        let ghost h: PtN = pt_view(acc);
        proof {
            lemma_pow2_adds(j as nat, 1);
            lemma_pow2_pos(j as nat);
            lemma_pow2_limbs();
            lemma_div_denominator(nk as int, pow2(j as nat) as int, 2);
            assert(m2 / 2 == m);
            assert(m2 == 2 * m + m2 % 2);
            lemma_fe_chunk(*k, ki as int, s as nat, 1);
            lemma_u64_shr_is_div(l, s as u64);
            assert((l >> (s as u64)) & 1 == (l >> (s as u64)) % 2) by (bit_vector);
            assert(64 * ki + s == j);
            assert(bit as nat == m2 % 2);
        }
        acc = match pt_add(&acc, &acc) {
            Ok(q) => q,
            Err(e) => {
                proof {
                    assert(pt_add_fails(h, h));
                    assert(m2 != 0);
                    assert(pt_mul_f(m2, pv) is None);
                    lemma_pt_mul_f_none_up(nk, j as nat, pv);
                }
                return Err(e);
            },
        };
        if bit == 1 {
            let ghost d: PtN = pt_view(acc);
            acc = match pt_add(&acc, p) {
                Ok(q) => q,
                Err(e) => {
                    proof {
                        assert(pt_add_fails(d, pv));
                        assert(pt_mul_f(m2, pv) is None);
                        lemma_pt_mul_f_none_up(nk, j as nat, pv);
                    }
                    return Err(e);
                },
            };
            proof {
                assert(pt_mul_f(m2, pv) == Some(pt_view(acc)));
            }
        } else {
            proof {
                if m2 == 0 {
                    assert(m == 0);
                    assert(h == PtN::Inf);
                    assert(pt_view(acc) == pt_add_n(PtN::Inf, PtN::Inf));
                    assert(pt_mul_f(0, pv) == Some(PtN::Inf));
                } else {
                    assert(pt_mul_f(m2, pv) == Some(pt_view(acc)));
                }
            }
        }
    }
    proof {
        lemma_pow2_limbs();
        assert(nk / pow2(0) == nk);
        lemma_pt_mul_f_some(nk, pv);
    }
    Ok(acc)
}

} // verus!
