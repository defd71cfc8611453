//! SM2 public-key encryption: the key derivation function over SM3, the
//! masking and integrity tag, and the two ciphertext layouts, each operation
//! pinned to a mathematical model of the whole ciphertext.

use vstd::prelude::*;
use crate::fe::{
    as_nat, be_byte_of, fe_bytes, fe_from_bytes, fe_ok, fe_to_bytes, lemma_be_bytes32_roundtrip,
    lemma_pow2_limbs, nat_of_be, p_fe, p_nat, sub4, Fe,
};
use crate::curve::{
    gx_nat, gy_nat, lemma_pt_mul_f_some, on_curve, on_curve_n, pt_mul, pt_mul_f, pt_mul_n, pt_ok,
    pt_view, CurvePoint, PtN,
};
use crate::sm3::{sm3_hash, sm3_spec};
use crate::sm4::{lemma_xorb_cancel, xorb};
use crate::SmError;

verus! {

/// The 32-byte big-endian form of a 256-bit value.
pub open spec fn be_bytes32(v: nat) -> Seq<u8> {
    Seq::new(32, |j: int| be_byte_of(v, j))
}

/// The four big-endian bytes of the derivation counter.
pub open spec fn ctr_bytes(c: u32) -> Seq<u8> {
    seq![
        ((c >> 24) & 0xff) as u8,
        ((c >> 16) & 0xff) as u8,
        ((c >> 8) & 0xff) as u8,
        (c & 0xff) as u8,
    ]
}

/// The concatenated digest blocks the key derivation draws from.
pub open spec fn kdf_blocks(z: Seq<u8>, ct: int) -> Seq<u8>
    decreases ct,
{
    if ct <= 0 {
        Seq::empty()
    } else {
        kdf_blocks(z, ct - 1) + sm3_spec(z + ctr_bytes(ct as u32))
    }
}

/// The derived keystream: counter-chained digests, cut to the asked length.
pub open spec fn kdf(z: Seq<u8>, klen: nat) -> Seq<u8> {
    kdf_blocks(z, ((klen + 31) / 32) as int).take(klen as int)
}

pub open spec fn all_zero(s: Seq<u8>) -> bool {
    forall|i: int| 0 <= i < s.len() ==> #[trigger] s[i] == 0u8
}

pub proof fn lemma_kdf_blocks_len(z: Seq<u8>, ct: int)
    requires
        ct >= 0,
    ensures
        kdf_blocks(z, ct).len() == 32 * ct,
    decreases ct,
{
    if ct > 0 {
        lemma_kdf_blocks_len(z, ct - 1);
    }
}

pub proof fn lemma_kdf_len(z: Seq<u8>, klen: nat)
    ensures
        kdf(z, klen).len() == klen,
{
    let ct = ((klen + 31) / 32) as int;
    lemma_kdf_blocks_len(z, ct);
    assert(klen + 31 == 32 * ((klen + 31) / 32) + (klen + 31) % 32);
}

/// The whole ciphertext for a chosen ephemeral scalar, or nothing when the
/// scalar is degenerate for this key and message.
pub open spec fn encrypt_spec(pkx: nat, pky: nat, m: Seq<u8>, k: nat, c1c3c2: bool) -> Option<
    Seq<u8>,
> {
    match pt_mul_n(k, PtN::At(gx_nat(), gy_nat())) {
        PtN::Inf => None,
        PtN::At(x1, y1) => match pt_mul_n(k, PtN::At(pkx, pky)) {
            PtN::Inf => None,
            PtN::At(x2, y2) => {
                let t = kdf(be_bytes32(x2) + be_bytes32(y2), m.len());
                if m.len() > 0 && all_zero(t) {
                    None
                } else {
                    let c1 = be_bytes32(x1) + be_bytes32(y1);
                    let c2 = xorb(m, t);
                    let c3 = sm3_spec(be_bytes32(x2) + m + be_bytes32(y2));
                    if c1c3c2 {
                        Some(c1 + c3 + c2)
                    } else {
                        Some(c1 + c2 + c3)
                    }
                }
            },
        },
    }
}

/// What decryption returns on any input: the recovered message exactly when
/// the structure parses, the point lies on the curve, the keystream is usable
/// and the recomputed tag matches.
pub open spec fn decrypt_spec(sk: nat, d: Seq<u8>, c1c3c2: bool) -> Result<Seq<u8>, SmError> {
    if d.len() < 96 {
        Err(SmError::MalformedCiphertext)
    } else {
        let x1 = nat_of_be(d.subrange(0, 32));
        let y1 = nat_of_be(d.subrange(32, 64));
        if x1 >= p_nat() || y1 >= p_nat() || !on_curve_n(PtN::At(x1, y1)) {
            Err(SmError::PointNotOnCurve)
        } else {
            let c3 = if c1c3c2 {
                d.subrange(64, 96)
            } else {
                d.subrange(d.len() - 32, d.len() as int)
            };
            let c2 = if c1c3c2 {
                d.skip(96)
            } else {
                d.subrange(64, d.len() - 32)
            };
            match pt_mul_n(sk, PtN::At(x1, y1)) {
                PtN::Inf => Err(SmError::InvalidOperand),
                PtN::At(x2, y2) => {
                    let t = kdf(be_bytes32(x2) + be_bytes32(y2), c2.len());
                    if c2.len() > 0 && all_zero(t) {
                        Err(SmError::MalformedCiphertext)
                    } else {
                        let m = xorb(c2, t);
                        let tag = sm3_spec(be_bytes32(x2) + m + be_bytes32(y2));
                        if tag == c3 {
                            Ok(m)
                        } else {
                            Err(SmError::IntegrityCheckFailed)
                        }
                    }
                },
            }
        }
    }
}

/// Whether the scalar multiplication inside decryption fails to certify an
/// inverse, on a ciphertext that parses to a curve point: the one failure
/// that is the arithmetic's, not the ciphertext's.
pub open spec fn decrypt_ops_fail(sk: nat, d: Seq<u8>) -> bool {
    &&& d.len() >= 96
    &&& {
        let x1 = nat_of_be(d.subrange(0, 32));
        let y1 = nat_of_be(d.subrange(32, 64));
        &&& x1 < p_nat()
        &&& y1 < p_nat()
        &&& on_curve_n(PtN::At(x1, y1))
        &&& pt_mul_f(sk, PtN::At(x1, y1)) is None
    }
}

/// Copy `n` bytes starting at `start`.
pub fn take_bytes(d: &[u8], start: usize, n: usize) -> (r: Vec<u8>)
    requires
        start + n <= d@.len(),
    ensures
        r@ == d@.subrange(start as int, start + n),
{
    let dl: usize = d.len();
    let mut out: Vec<u8> = Vec::new();
    let mut i: usize = 0;
    while i < n
        invariant
            i <= n,
            dl == d@.len(),
            start + n <= d@.len(),
            out@ == d@.subrange(start as int, start + i),
        decreases n - i,
    {
        out.push(d[start + i]);
        proof {
            assert(out@ =~= d@.subrange(start as int, start + i + 1));
        }
        i = i + 1;
    }
    out
}

/// Whether two byte strings are equal. The walk accumulates the differences
/// instead of stopping at the first one, so equal-length comparisons touch
/// every byte whatever the contents.
pub fn bytes_eq(a: &Vec<u8>, b: &Vec<u8>) -> (r: bool)
    ensures
        r == (a@ == b@),
{
    if a.len() != b.len() {
        return false;
    }
    let n = a.len();
    let mut diff: u8 = 0;
    let mut i: usize = 0;
    while i < n
        invariant
            i <= n,
            n == a@.len(),
            n == b@.len(),
            (diff == 0) <==> (forall|t: int| 0 <= t < i ==> a@[t] == b@[t]),
        decreases n - i,
    {
        let ai = a[i];
        let bi = b[i];
        let ghost olddiff = diff;
        diff = diff | (ai ^ bi);
        proof {
            assert((olddiff | (ai ^ bi)) == 0 <==> olddiff == 0 && (ai ^ bi) == 0) by (bit_vector);
            assert((ai ^ bi) == 0 <==> ai == bi) by (bit_vector);
        }
        i = i + 1;
    }
    proof {
        if diff == 0 {
            assert(a@ =~= b@);
        }
    }
    diff == 0
}

fn is_all_zero(s: &Vec<u8>) -> (r: bool)
    ensures
        r == all_zero(s@),
{
    let n = s.len();
    let mut i: usize = 0;
    while i < n
        invariant
            i <= n,
            n == s@.len(),
            forall|t: int| 0 <= t < i ==> #[trigger] s@[t] == 0u8,
        decreases n - i,
    {
        if s[i] != 0 {
            return false;
        }
        i = i + 1;
    }
    true
}

/// Derive `klen` keystream bytes from the shared coordinates.
fn kdf_e(z: &Vec<u8>, klen: usize) -> (r: Vec<u8>)
    requires
        z@.len() == 64,
        klen < 0x8000_0000,
    ensures
        r@ == kdf(z@, klen as nat),
        r@.len() == klen,
{
    let ctn: usize = (klen + 31) / 32;
    let mut full: Vec<u8> = Vec::new();
    let mut c: usize = 0;
    while c < ctn
        invariant
            c <= ctn,
            ctn == (klen + 31) / 32,
            klen < 0x8000_0000,
            z@.len() == 64,
            full@ == kdf_blocks(z@, c as int),
            full@.len() == 32 * c,
        decreases ctn - c,
    {
        c = c + 1;
        let cw: u32 = c as u32;
        let mut buf: Vec<u8> = Vec::new();
        let mut t: usize = 0;
        while t < 64
            invariant
                t <= 64,
                z@.len() == 64,
                buf@ == z@.take(t as int),
            decreases 64 - t,
        {
            buf.push(z[t]);
            proof {
                assert(buf@ =~= z@.take(t + 1));
            }
            t = t + 1;
        }
        proof {
            assert(z@.take(64) =~= z@);
        }
        buf.push(((cw >> 24) & 0xff) as u8);
        buf.push(((cw >> 16) & 0xff) as u8);
        buf.push(((cw >> 8) & 0xff) as u8);
        buf.push((cw & 0xff) as u8);
        proof {
            assert(buf@ =~= z@ + ctr_bytes(cw));
        }
        let dg = sm3_hash(buf.as_slice());
        let mut t2: usize = 0;
        let ghost oldfull = full@;
        while t2 < 32
            invariant
                t2 <= 32,
                dg@.len() == 32,
                full@ == oldfull + dg@.take(t2 as int),
            decreases 32 - t2,
        {
            full.push(dg[t2]);
            proof {
                assert(full@ =~= oldfull + dg@.take(t2 + 1));
            }
            t2 = t2 + 1;
        }
        proof {
            assert(dg@.take(32) =~= dg@);
            assert(full@ =~= kdf_blocks(z@, c as int));
        }
    }
    proof {
        assert(klen + 31 == 32 * ((klen + 31) / 32) + (klen + 31) % 32);
        assert(32 * ctn >= klen);
    }
    let mut out: Vec<u8> = Vec::new();
    let mut i: usize = 0;
    while i < klen
        invariant
            i <= klen,
            klen <= full@.len(),
            out@ == full@.take(i as int),
        decreases klen - i,
    {
        out.push(full[i]);
        proof {
            assert(out@ =~= full@.take(i + 1));
        }
        i = i + 1;
    }
    out
}

/// XOR a message with a keystream of the same length.
fn xor_into(m: &[u8], t: &Vec<u8>) -> (r: Vec<u8>)
    requires
        m@.len() == t@.len(),
    ensures
        r@ == xorb(m@, t@),
{
    let n = m.len();
    let mut out: Vec<u8> = Vec::new();
    let mut i: usize = 0;
    while i < n
        invariant
            i <= n,
            n == m@.len(),
            n == t@.len(),
            out@ == xorb(m@, t@).take(i as int),
        decreases n - i,
    {
        out.push(m[i] ^ t[i]);
        proof {
            assert(out@ =~= xorb(m@, t@).take(i + 1));
        }
        i = i + 1;
    }
    proof {
        assert(xorb(m@, t@).take(n as int) =~= xorb(m@, t@));
    }
    out
}

/// Append a field element's 32 big-endian bytes.
fn push_fe(out: &mut Vec<u8>, x: &Fe)
    ensures
        final(out)@ == old(out)@ + be_bytes32(as_nat(*x)),
{
    let b = fe_to_bytes(x);
    let mut i: usize = 0;
    while i < 32
        invariant
            i <= 32,
            b@.len() == 32,
            b@ == fe_bytes(*x),
            out@ == old(out)@ + b@.take(i as int),
        decreases 32 - i,
    {
        out.push(b[i]);
        proof {
            assert(out@ =~= old(out)@ + b@.take(i + 1));
        }
        i = i + 1;
    }
    proof {
        assert(b@.take(32) =~= b@);
        assert(fe_bytes(*x) =~= be_bytes32(as_nat(*x)));
    }
}

/// Encrypt under a chosen ephemeral scalar. A failure other than
/// `InvalidOperand` means the scalar is degenerate here and must be redrawn.
pub fn sm2_encrypt_with_k(pk: &CurvePoint, m: &[u8], k: &Fe, c1c3c2: bool) -> (r: Result<
    Vec<u8>,
    SmError,
>)
    requires
        pt_ok(*pk),
        pk matches CurvePoint::Affine(_, _),
        fe_ok(*k),
        m@.len() < 0x8000_0000,
    ensures
        (r is Ok <==> pt_mul_f(as_nat(*k), PtN::At(gx_nat(), gy_nat())) is Some && pt_mul_f(
            as_nat(*k),
            pt_view(*pk),
        ) is Some && on_curve_n(pt_mul_n(as_nat(*k), PtN::At(gx_nat(), gy_nat()))) && (pt_view(*pk)
            matches PtN::At(px, py) && encrypt_spec(px, py, m@, as_nat(*k), c1c3c2) is Some)),
        match r {
            Ok(c) => (pt_view(*pk) matches PtN::At(px, py) && encrypt_spec(
                px,
                py,
                m@,
                as_nat(*k),
                c1c3c2,
            ) == Some(c@)) && on_curve_n(pt_mul_n(as_nat(*k), PtN::At(gx_nat(), gy_nat()))),
            Err(e) => (e == SmError::InvalidOperand && (pt_mul_f(
                as_nat(*k),
                PtN::At(gx_nat(), gy_nat()),
            ) is None || pt_mul_f(as_nat(*k), pt_view(*pk)) is None)) || (e
                == SmError::EncryptionFailed && pt_mul_f(as_nat(*k), PtN::At(gx_nat(), gy_nat()))
                is Some && pt_mul_f(as_nat(*k), pt_view(*pk)) is Some && (pt_view(*pk)
                matches PtN::At(px, py) && (encrypt_spec(px, py, m@, as_nat(*k), c1c3c2) is None
                || !on_curve_n(pt_mul_n(as_nat(*k), PtN::At(gx_nat(), gy_nat())))))),
        },
{
    let g = crate::curve::g_pt();
    let c1p = match pt_mul(k, &g) {
        Ok(q) => q,
        Err(e) => {
            return Err(e);
        },
    };
    let sp = match pt_mul(k, pk) {
        Ok(q) => q,
        Err(e) => {
            return Err(e);
        },
    };
    proof {
        lemma_pt_mul_f_some(as_nat(*k), PtN::At(gx_nat(), gy_nat()));
        lemma_pt_mul_f_some(as_nat(*k), pt_view(*pk));
    }
    if !on_curve(&c1p) {
        return Err(SmError::EncryptionFailed);
    }
    let (x1, y1) = match c1p {
        CurvePoint::Infinity => {
            return Err(SmError::EncryptionFailed);
        },
        CurvePoint::Affine(x, y) => (x, y),
    };
    let (x2, y2) = match sp {
        CurvePoint::Infinity => {
            return Err(SmError::EncryptionFailed);
        },
        CurvePoint::Affine(x, y) => (x, y),
    };
    let mut z: Vec<u8> = Vec::new();
    push_fe(&mut z, &x2);
    push_fe(&mut z, &y2);
    let t = kdf_e(&z, m.len());
    if m.len() > 0 && is_all_zero(&t) {
        return Err(SmError::EncryptionFailed);
    }
    let c2 = xor_into(m, &t);
    let mut tagin: Vec<u8> = Vec::new();
    push_fe(&mut tagin, &x2);
    let mut i: usize = 0;
    let ghost tag0 = tagin@;
    while i < m.len()
        invariant
            i <= m@.len(),
            tagin@ == tag0 + m@.take(i as int),
        decreases m@.len() - i,
    {
        tagin.push(m[i]);
        proof {
            assert(tagin@ =~= tag0 + m@.take(i + 1));
        }
        i = i + 1;
    }
    proof {
        assert(m@.take(m@.len() as int) =~= m@);
    }
    push_fe(&mut tagin, &y2);
    let c3 = sm3_hash(tagin.as_slice());
    let mut out: Vec<u8> = Vec::new();
    push_fe(&mut out, &x1);
    push_fe(&mut out, &y1);
    let ghost c1seq = out@;
    let (first, second) = if c1c3c2 {
        (&c3, &c2)
    } else {
        (&c2, &c3)
    };
    let mut i2: usize = 0;
    let ghost outb = out@;
    while i2 < first.len()
        invariant
            i2 <= first@.len(),
            out@ == outb + first@.take(i2 as int),
        decreases first@.len() - i2,
    {
        out.push(first[i2]);
        proof {
            assert(out@ =~= outb + first@.take(i2 + 1));
        }
        i2 = i2 + 1;
    }
    let mut i3: usize = 0;
    let ghost outc = out@;
    while i3 < second.len()
        invariant
            i3 <= second@.len(),
            out@ == outc + second@.take(i3 as int),
        decreases second@.len() - i3,
    {
        out.push(second[i3]);
        proof {
            assert(out@ =~= outc + second@.take(i3 + 1));
        }
        i3 = i3 + 1;
    }
    proof {
        assert(first@.take(first@.len() as int) =~= first@);
        assert(second@.take(second@.len() as int) =~= second@);
        assert(z@ =~= be_bytes32(as_nat(x2)) + be_bytes32(as_nat(y2)));
        assert(tagin@ =~= be_bytes32(as_nat(x2)) + m@ + be_bytes32(as_nat(y2)));
        if c1c3c2 {
            assert(out@ =~= (be_bytes32(as_nat(x1)) + be_bytes32(as_nat(y1))) + c3@ + c2@);
        } else {
            assert(out@ =~= (be_bytes32(as_nat(x1)) + be_bytes32(as_nat(y1))) + c2@ + c3@);
        }
    }
    Ok(out)
}

/// Decrypt a ciphertext with the private scalar; every outcome other than an
/// uncertified inverse agrees with the model.
#[verifier::rlimit(50)]
pub fn sm2_decrypt_core(sk: &Fe, data: &[u8], c1c3c2: bool) -> (r: Result<Vec<u8>, SmError>)
    requires
        fe_ok(*sk),
        data@.len() < 0x8000_0000,
    ensures
        decrypt_ops_fail(as_nat(*sk), data@) ==> (r matches Err(e) && e
            == SmError::InvalidOperand),
        !decrypt_ops_fail(as_nat(*sk), data@) ==> match r {
            Ok(m) => decrypt_spec(as_nat(*sk), data@, c1c3c2) == Ok::<Seq<u8>, SmError>(m@),
            Err(e) => decrypt_spec(as_nat(*sk), data@, c1c3c2) == Err::<Seq<u8>, SmError>(e),
        },
{
    if data.len() < 96 {
        return Err(SmError::MalformedCiphertext);
    }
    let dlen = data.len();
    let xb = take_bytes(data, 0, 32);
    let yb = take_bytes(data, 32, 32);
    let x1f = fe_from_bytes(xb.as_slice());
    let y1f = fe_from_bytes(yb.as_slice());
    let p = p_fe();
    let (_, bx) = sub4(&x1f, &p);
    let (_, by) = sub4(&y1f, &p);
    if bx == 0 || by == 0 {
        return Err(SmError::PointNotOnCurve);
    }
    let c1 = CurvePoint::Affine(x1f, y1f);
    if !on_curve(&c1) {
        return Err(SmError::PointNotOnCurve);
    }
    let c3v = if c1c3c2 {
        take_bytes(data, 64, 32)
    } else {
        take_bytes(data, dlen - 32, 32)
    };
    let c2v = if c1c3c2 {
        take_bytes(data, 96, dlen - 96)
    } else {
        take_bytes(data, 64, dlen - 96)
    };
    proof {
        if c1c3c2 {
            assert(c2v@ =~= data@.skip(96));
        } else {
            assert(c2v@ =~= data@.subrange(64, data@.len() - 32));
            assert(c3v@ =~= data@.subrange(data@.len() - 32, data@.len() as int));
        }
    }
    let sp = match pt_mul(sk, &c1) {
        Ok(q) => q,
        Err(e) => {
            proof {
                assert(decrypt_ops_fail(as_nat(*sk), data@));
            }
            return Err(e);
        },
    };
    let (x2, y2) = match sp {
        CurvePoint::Infinity => {
            return Err(SmError::InvalidOperand);
        },
        CurvePoint::Affine(x, y) => (x, y),
    };
    let mut z: Vec<u8> = Vec::new();
    push_fe(&mut z, &x2);
    push_fe(&mut z, &y2);
    let t = kdf_e(&z, c2v.len());
    if c2v.len() > 0 && is_all_zero(&t) {
        return Err(SmError::MalformedCiphertext);
    }
    let m = xor_into(c2v.as_slice(), &t);
    let mut tagin: Vec<u8> = Vec::new();
    push_fe(&mut tagin, &x2);
    let mut i: usize = 0;
    let ghost tag0 = tagin@;
    while i < m.len()
        invariant
            i <= m@.len(),
            tagin@ == tag0 + m@.take(i as int),
        decreases m@.len() - i,
    {
        tagin.push(m[i]);
        proof {
            assert(tagin@ =~= tag0 + m@.take(i + 1));
        }
        i = i + 1;
    }
    proof {
        assert(m@.take(m@.len() as int) =~= m@);
    }
    push_fe(&mut tagin, &y2);
    let tag = sm3_hash(tagin.as_slice());
    proof {
        assert(z@ =~= be_bytes32(as_nat(x2)) + be_bytes32(as_nat(y2)));
        assert(tagin@ =~= be_bytes32(as_nat(x2)) + m@ + be_bytes32(as_nat(y2)));
    }
    if bytes_eq(&tag, &c3v) {
        Ok(m)
    } else {
        Err(SmError::IntegrityCheckFailed)
    }
}

/// What the model recovers from what it produced, past the curve arithmetic:
/// for any shared coordinates, unmasking the masked message gives the message
/// back, and the recomputed tag is the stored tag.
pub proof fn lemma_sm2_mask_roundtrip(x2: nat, y2: nat, m: Seq<u8>)
    requires
        !all_zero(kdf(be_bytes32(x2) + be_bytes32(y2), m.len())),
    ensures
        ({
            let t = kdf(be_bytes32(x2) + be_bytes32(y2), m.len());
            xorb(xorb(m, t), t) == m && sm3_spec(
                be_bytes32(x2) + xorb(xorb(m, t), t) + be_bytes32(y2),
            ) == sm3_spec(be_bytes32(x2) + m + be_bytes32(y2))
        }),
{
    let t = kdf(be_bytes32(x2) + be_bytes32(y2), m.len());
    lemma_kdf_len(be_bytes32(x2) + be_bytes32(y2), m.len());
    assert forall|i: int| 0 <= i < m.len() implies xorb(xorb(m, t), t)[i] == m[i] by {
        let x = m[i];
        let y = t[i];
        assert((x ^ y) ^ y == x) by (bit_vector);
    }
    assert(xorb(xorb(m, t), t) =~= m);
}

/// Tampering with the tag region of a well-formed ciphertext makes decryption
/// fail with an integrity error: the rest of the ciphertext still derives the
/// same tag, and the stored one no longer matches it.
pub proof fn lemma_sm2_tamper_detected(sk: nat, d1: Seq<u8>, d2: Seq<u8>, c1c3c2: bool)
    requires
        decrypt_spec(sk, d1, c1c3c2) is Ok,
        d1.len() == d2.len(),
        ({
            let lo = if c1c3c2 {
                64int
            } else {
                d1.len() - 32
            };
            let hi = lo + 32;
            (forall|i: int| 0 <= i < d1.len() && !(lo <= i < hi) ==> d1[i] == d2[i])
                && d1.subrange(lo, hi) != d2.subrange(lo, hi)
        }),
    ensures
        decrypt_spec(sk, d2, c1c3c2) == Err::<Seq<u8>, SmError>(SmError::IntegrityCheckFailed),
{
    let lo = if c1c3c2 {
        64int
    } else {
        d1.len() - 32
    };
    let hi = lo + 32;
    assert(d2.subrange(0, 32) =~= d1.subrange(0, 32));
    assert(d2.subrange(32, 64) =~= d1.subrange(32, 64));
    if c1c3c2 {
        assert(d2.skip(96) =~= d1.skip(96));
    } else {
        assert(d2.subrange(64, d2.len() - 32) =~= d1.subrange(64, d1.len() - 32));
    }
    let c3a = if c1c3c2 {
        d1.subrange(64, 96)
    } else {
        d1.subrange(d1.len() - 32, d1.len() as int)
    };
    let c3b = if c1c3c2 {
        d2.subrange(64, 96)
    } else {
        d2.subrange(d2.len() - 32, d2.len() as int)
    };
    assert(c3a != c3b);
}


/// Decryption returns the plaintext of any encryption whose two scalar
/// multiplications meet in one shared point: everything past the curve
/// arithmetic, parsing, unmasking and the tag check, is inverted exactly.
pub proof fn lemma_sm2_roundtrip_shared_point(
    sk: nat,
    pkx: nat,
    pky: nat,
    k: nat,
    m: Seq<u8>,
    c: Seq<u8>,
    c1c3c2: bool,
)
    requires
        encrypt_spec(pkx, pky, m, k, c1c3c2) == Some(c),
        pt_mul_n(sk, pt_mul_n(k, PtN::At(gx_nat(), gy_nat()))) == pt_mul_n(k, PtN::At(pkx, pky)),
        (pt_mul_n(k, PtN::At(gx_nat(), gy_nat())) matches PtN::At(x1, y1) && x1 < p_nat() && y1
            < p_nat()),
        on_curve_n(pt_mul_n(k, PtN::At(gx_nat(), gy_nat()))),
    ensures
        decrypt_spec(sk, c, c1c3c2) == Ok::<Seq<u8>, SmError>(m),
{
    let c1pt = pt_mul_n(k, PtN::At(gx_nat(), gy_nat()));
    let x1 = c1pt->At_0;
    let y1 = c1pt->At_1;
    let spt = pt_mul_n(k, PtN::At(pkx, pky));
    let x2 = spt->At_0;
    let y2 = spt->At_1;
    let z = be_bytes32(x2) + be_bytes32(y2);
    let t = kdf(z, m.len());
    lemma_kdf_len(z, m.len());
    let c1b = be_bytes32(x1) + be_bytes32(y1);
    let c2 = xorb(m, t);
    let c3 = sm3_spec(be_bytes32(x2) + m + be_bytes32(y2));
    assert(c2.len() == m.len());
    assert(c3.len() == 32);
    if c1c3c2 {
        assert(c == c1b + c3 + c2);
    } else {
        assert(c == c1b + c2 + c3);
    }
    assert(c.len() == 96 + m.len());
    // the stored point parses back to the computed coordinates
    assert(c.subrange(0, 32) =~= be_bytes32(x1));
    assert(c.subrange(32, 64) =~= be_bytes32(y1));
    lemma_pow2_limbs();
    lemma_be_bytes32_roundtrip(x1);
    lemma_be_bytes32_roundtrip(y1);
    assert(nat_of_be(c.subrange(0, 32)) == x1);
    assert(nat_of_be(c.subrange(32, 64)) == y1);
    // the tag and masked message come back out unchanged
    let c3p = if c1c3c2 {
        c.subrange(64, 96)
    } else {
        c.subrange(c.len() - 32, c.len() as int)
    };
    let c2p = if c1c3c2 {
        c.skip(96)
    } else {
        c.subrange(64, c.len() - 32)
    };
    assert(c3p =~= c3);
    assert(c2p =~= c2);
    // the same shared point, so the same keystream and tag
    assert(pt_mul_n(sk, PtN::At(x1, y1)) == PtN::At(x2, y2));
    lemma_xorb_cancel(m, t);
    assert(xorb(c2, t) =~= m);
}

} // verus!
