//! SM2 public-key encryption, the SM3 hash, and the SM4 block cipher,
//! with machine-checked contracts over mathematical models of each primitive.

pub mod codec;
pub mod curve;
pub mod fe;
pub mod sm2;
pub mod sm3;
pub mod sm4;

use vstd::prelude::*;
use vstd::string::StringExecFns;
use vstd::string::StringExecFnsIsAscii;
use vstd::utf8::is_ascii_chars;
use crate::codec::{ascii_bytes, bytes_to_hex, fe_from_hex, hex_of, is_hexb, nat_of_hexb};
use crate::curve::{
    g_pt, gx_nat, gy_nat, lemma_pt_mul_f_some, n_fe, n_nat, on_curve, on_curve_n, pt_mul, pt_mul_f,
    pt_mul_n, pt_ok, pt_view, CurvePoint, PtN,
};
use crate::fe::{
    as_nat, fe_bytes, fe_from_bytes, fe_is_zero, fe_ok, fe_to_bytes, p_fe, p_nat, sub4, Fe,
};
use crate::sm2::{
    be_bytes32, decrypt_ops_fail, decrypt_spec, encrypt_spec, sm2_decrypt_core, sm2_encrypt_with_k,
    take_bytes,
};
use crate::sm3::{sm3_hash, sm3_spec};
use crate::sm4::{cbc_dec, cbc_enc, ecb_dec, ecb_enc, pad16, rks_of_key, unpad16};

verus! {

broadcast use vstd::string::is_ascii_spec_bytes;

/// Every failure the library can report, one variant per condition.
#[derive(Clone, Copy, Debug, PartialEq, Eq, Structural)]
pub enum SmError {
    /// A key or IV does not have the exact length the algorithm requires.
    InvalidKeyLength,
    /// Field or scalar arithmetic was asked for on a zero or out-of-range value.
    InvalidOperand,
    /// A decoded point does not satisfy the curve equation.
    PointNotOnCurve,
    /// The bounded retry loop for a usable ephemeral scalar was exhausted.
    EncryptionFailed,
    /// The SM2 integrity tag did not match the recomputed digest.
    IntegrityCheckFailed,
    /// A ciphertext is too short or structurally invalid.
    MalformedCiphertext,
    /// An SM4 plaintext trailer is not valid block padding.
    InvalidPadding,
}

/// A generated key pair, both keys hex-encoded.
#[allow(non_camel_case_types)]
#[derive(Clone, Debug)]
pub struct SM2_KEYS {
    pub private_key: String,
    pub public_key: String,
}

/// Relies on getrandom::getrandom: fills the buffer from the operating
/// system's entropy source. Nothing is assumed of the values drawn.
#[verifier::external_body]
fn random_bytes_32() -> (r: Option<Vec<u8>>)
    ensures
        r matches Some(v) ==> v@.len() == 32,
{
    let mut buf: Vec<u8> = vec![0u8; 32];
    match getrandom::getrandom(&mut buf) {
        Ok(()) => Some(buf),
        Err(_) => None,
    }
}

/// Draw a scalar usable as a private key or nonce: nonzero and below the order.
fn draw_scalar() -> (r: Option<Fe>)
    ensures
        r matches Some(k) ==> fe_ok(k) && 1 <= as_nat(k) < n_nat(),
{
    let bytes = match random_bytes_32() {
        Some(b) => b,
        None => {
            return None;
        },
    };
    let k = fe_from_bytes(bytes.as_slice());
    if fe_is_zero(&k) {
        return None;
    }
    let nf = n_fe();
    let (_, brw) = sub4(&k, &nf);
    if brw == 0 {
        return None;
    }
    Some(k)
}

/// What a 64-digit private-key string parses to.
pub open spec fn sk_parse(s: Seq<char>) -> Option<nat> {
    if !is_ascii_chars(s) {
        None
    } else {
        let b = ascii_bytes(s);
        if b.len() == 64 && is_hexb(b) {
            Some(nat_of_hexb(b))
        } else {
            None
        }
    }
}

/// What a public-key string parses to: the two coordinates, with or without
/// the uncompressed-point prefix.
pub open spec fn pk_parse(s: Seq<char>) -> Option<(nat, nat)> {
    if !is_ascii_chars(s) {
        None
    } else {
        let b = ascii_bytes(s);
        let off: int = if b.len() == 130 && b[0] == 48 && b[1] == 52 {
            2
        } else if b.len() == 128 {
            0
        } else {
            -1
        };
        if off < 0 {
            None
        } else {
            let xs = b.subrange(off, off + 64);
            let ys = b.subrange(off + 64, off + 128);
            if is_hexb(xs) && is_hexb(ys) {
                Some((nat_of_hexb(xs), nat_of_hexb(ys)))
            } else {
                None
            }
        }
    }
}

fn parse_sk(sk: &String) -> (r: Result<Fe, SmError>)
    ensures
        match r {
            Ok(f) => fe_ok(f) && sk_parse(sk@) == Some(as_nat(f)) && 1 <= as_nat(f) < n_nat(),
            Err(e) => (e == SmError::InvalidKeyLength && sk_parse(sk@) is None) || (e
                == SmError::InvalidOperand && (sk_parse(sk@) matches Some(v) && (v == 0 || v
                >= n_nat()))),
        },
{
    let st = sk.as_str();
    if !st.is_ascii() {
        return Err(SmError::InvalidKeyLength);
    }
    let b = st.as_bytes();
    proof {
        assert(b@ =~= ascii_bytes(sk@));
    }
    if b.len() != 64 {
        return Err(SmError::InvalidKeyLength);
    }
    let f = match fe_from_hex(b) {
        Some(f) => f,
        None => {
            return Err(SmError::InvalidKeyLength);
        },
    };
    if fe_is_zero(&f) {
        return Err(SmError::InvalidOperand);
    }
    let nf = n_fe();
    let (_, brw) = sub4(&f, &nf);
    if brw == 0 {
        return Err(SmError::InvalidOperand);
    }
    proof {
        assert(n_nat() < p_nat());
    }
    Ok(f)
}

fn parse_pk(pk: &String) -> (r: Result<CurvePoint, SmError>)
    ensures
        match r {
            Ok(pt) => pt_ok(pt) && (pt matches CurvePoint::Affine(_, _)) && (pk_parse(pk@)
                matches Some((x, y)) && pt_view(pt) == PtN::At(x, y) && x < p_nat() && y < p_nat()
                && on_curve_n(PtN::At(x, y))),
            Err(e) => (e == SmError::InvalidKeyLength && pk_parse(pk@) is None) || (e
                == SmError::PointNotOnCurve && (pk_parse(pk@) matches Some((x, y)) && (x >= p_nat()
                || y >= p_nat() || !on_curve_n(PtN::At(x, y))))),
        },
{
    let st = pk.as_str();
    if !st.is_ascii() {
        return Err(SmError::InvalidKeyLength);
    }
    let b = st.as_bytes();
    proof {
        assert(b@ =~= ascii_bytes(pk@));
    }
    let blen = b.len();
    let off: usize = if blen == 130 {
        let b0 = b[0];
        let b1 = b[1];
        if b0 == 48 && b1 == 52 {
            2
        } else {
            return Err(SmError::InvalidKeyLength);
        }
    } else if blen == 128 {
        0
    } else {
        return Err(SmError::InvalidKeyLength);
    };
    let xs = take_bytes(b, off, 64);
    let ys = take_bytes(b, off + 64, 64);
    let xf = match fe_from_hex(xs.as_slice()) {
        Some(f) => f,
        None => {
            return Err(SmError::InvalidKeyLength);
        },
    };
    let yf = match fe_from_hex(ys.as_slice()) {
        Some(f) => f,
        None => {
            return Err(SmError::InvalidKeyLength);
        },
    };
    let p = p_fe();
    let (_, bx) = sub4(&xf, &p);
    let (_, by) = sub4(&yf, &p);
    if bx == 0 || by == 0 {
        return Err(SmError::PointNotOnCurve);
    }
    let pt = CurvePoint::Affine(xf, yf);
    if !on_curve(&pt) {
        return Err(SmError::PointNotOnCurve);
    }
    Ok(pt)
}

/// Build the key pair of a chosen private scalar: the hex forms of the scalar
/// and of its public point. Succeeds exactly when the modelled multiplication
/// run yields an affine point satisfying the curve equation.
pub fn sm2_keypair_from_scalar(k: &Fe) -> (r: Result<SM2_KEYS, SmError>)
    requires
        fe_ok(*k),
        1 <= as_nat(*k) < n_nat(),
    ensures
        (r is Ok <==> (pt_mul_f(as_nat(*k), PtN::At(gx_nat(), gy_nat())) matches Some(q) && q
            matches PtN::At(_, _) && on_curve_n(q))),
        match r {
            Ok(kp) => pt_mul_n(as_nat(*k), PtN::At(gx_nat(), gy_nat())) matches PtN::At(px, py)
                && on_curve_n(PtN::At(px, py)) && kp.private_key@ == hex_of(be_bytes32(as_nat(*k)))
                && kp.public_key@ == seq!['0', '4'] + hex_of(be_bytes32(px)) + hex_of(
                be_bytes32(py),
            ),
            Err(e) => e == SmError::EncryptionFailed,
        },
{
    let g = g_pt();
    let pub_pt = match pt_mul(k, &g) {
        Ok(q) => q,
        Err(_) => {
            return Err(SmError::EncryptionFailed);
        },
    };
    proof {
        lemma_pt_mul_f_some(as_nat(*k), PtN::At(gx_nat(), gy_nat()));
    }
    if !on_curve(&pub_pt) {
        return Err(SmError::EncryptionFailed);
    }
    let (px, py) = match pub_pt {
        CurvePoint::Infinity => {
            return Err(SmError::EncryptionFailed);
        },
        CurvePoint::Affine(x, y) => (x, y),
    };
    let kb = fe_to_bytes(k);
    let priv_hex = bytes_to_hex(kb.as_slice());
    let pxb = fe_to_bytes(&px);
    let pyb = fe_to_bytes(&py);
    let px_hex = bytes_to_hex(pxb.as_slice());
    let py_hex = bytes_to_hex(pyb.as_slice());
    let mut pub_hex = String::new();
    proof {
        reveal_strlit("04");
    }
    pub_hex.append("04");
    pub_hex.append(px_hex.as_str());
    pub_hex.append(py_hex.as_str());
    proof {
        assert(fe_bytes(*k) =~= be_bytes32(as_nat(*k)));
        assert(fe_bytes(px) =~= be_bytes32(as_nat(px)));
        assert(fe_bytes(py) =~= be_bytes32(as_nat(py)));
        assert("04"@ =~= seq!['0', '4']);
        assert(priv_hex@ == hex_of(be_bytes32(as_nat(*k))));
        assert(pub_hex@ == seq!['0', '4'] + hex_of(be_bytes32(as_nat(px))) + hex_of(
            be_bytes32(as_nat(py)),
        ));
        assert(pt_mul_n(as_nat(*k), PtN::At(gx_nat(), gy_nat())) == PtN::At(
            as_nat(px),
            as_nat(py),
        ));
    }
    Ok(SM2_KEYS { private_key: priv_hex, public_key: pub_hex })
}

/// Generate a key pair: the private scalar in hex, the public point in the
/// uncompressed hex form, satisfying the curve equation. Failure means the
/// entropy source or the bounded retries were exhausted.
pub fn sm2_gen_keypair() -> (r: Result<SM2_KEYS, SmError>)
    ensures
        match r {
            Ok(kp) => exists|sk: nat, px: nat, py: nat|
                #![trigger pt_mul_n(sk, PtN::At(gx_nat(), gy_nat())), be_bytes32(px), be_bytes32(py)]
                1 <= sk < n_nat() && pt_mul_n(sk, PtN::At(gx_nat(), gy_nat())) == PtN::At(px, py)
                    && on_curve_n(PtN::At(px, py)) && kp.private_key@ == hex_of(be_bytes32(sk))
                    && kp.public_key@ == seq!['0', '4'] + hex_of(be_bytes32(px)) + hex_of(
                    be_bytes32(py),
                ),
            Err(e) => e == SmError::EncryptionFailed,
        },
{
    let mut tries: usize = 0;
    while tries < 100
        decreases 100 - tries,
    {
        tries = tries + 1;
        let k = match draw_scalar() {
            Some(k) => k,
            None => {
                continue ;
            },
        };
        match sm2_keypair_from_scalar(&k) {
            Ok(kp) => {
                return Ok(kp);
            },
            Err(_) => {
                continue ;
            },
        }
    }
    Err(SmError::EncryptionFailed)
}

/// Encrypt under a hex public key, emitting the point, tag, masked message order.
pub fn sm2_encrypt_c1c3c2(pk: String, buffer: Vec<u8>) -> (r: Result<Vec<u8>, SmError>)
    requires
        buffer@.len() < 0x8000_0000,
    ensures
        match r {
            Ok(c) => pk_parse(pk@) matches Some((x, y)) && x < p_nat() && y < p_nat()
                && on_curve_n(PtN::At(x, y)) && exists|k: nat|
                1 <= k < n_nat() && #[trigger] encrypt_spec(x, y, buffer@, k, true) == Some(c@)
                    && on_curve_n(pt_mul_n(k, PtN::At(gx_nat(), gy_nat()))),
            Err(e) => (e == SmError::InvalidKeyLength && pk_parse(pk@) is None) || (e
                == SmError::PointNotOnCurve && (pk_parse(pk@) matches Some((x, y)) && (x >= p_nat()
                || y >= p_nat() || !on_curve_n(PtN::At(x, y))))) || (e == SmError::EncryptionFailed
                && (pk_parse(pk@) matches Some((x, y)) && x < p_nat() && y < p_nat() && on_curve_n(
                PtN::At(x, y),
            ))),
        },
{
    sm2_encrypt_inner(&pk, &buffer, true)
}

/// Encrypt under a hex public key, emitting the point, masked message, tag order.
pub fn sm2_encrypt_c1c2c3(pk: String, buffer: Vec<u8>) -> (r: Result<Vec<u8>, SmError>)
    requires
        buffer@.len() < 0x8000_0000,
    ensures
        match r {
            Ok(c) => pk_parse(pk@) matches Some((x, y)) && x < p_nat() && y < p_nat()
                && on_curve_n(PtN::At(x, y)) && exists|k: nat|
                1 <= k < n_nat() && #[trigger] encrypt_spec(x, y, buffer@, k, false) == Some(c@)
                    && on_curve_n(pt_mul_n(k, PtN::At(gx_nat(), gy_nat()))),
            Err(e) => (e == SmError::InvalidKeyLength && pk_parse(pk@) is None) || (e
                == SmError::PointNotOnCurve && (pk_parse(pk@) matches Some((x, y)) && (x >= p_nat()
                || y >= p_nat() || !on_curve_n(PtN::At(x, y))))) || (e == SmError::EncryptionFailed
                && (pk_parse(pk@) matches Some((x, y)) && x < p_nat() && y < p_nat() && on_curve_n(
                PtN::At(x, y),
            ))),
        },
{
    sm2_encrypt_inner(&pk, &buffer, false)
}

fn sm2_encrypt_inner(pk: &String, buffer: &Vec<u8>, c1c3c2: bool) -> (r: Result<Vec<u8>, SmError>)
    requires
        buffer@.len() < 0x8000_0000,
    ensures
        match r {
            Ok(c) => pk_parse(pk@) matches Some((x, y)) && x < p_nat() && y < p_nat()
                && on_curve_n(PtN::At(x, y)) && exists|k: nat|
                1 <= k < n_nat() && #[trigger] encrypt_spec(x, y, buffer@, k, c1c3c2) == Some(c@)
                    && on_curve_n(pt_mul_n(k, PtN::At(gx_nat(), gy_nat()))),
            Err(e) => (e == SmError::InvalidKeyLength && pk_parse(pk@) is None) || (e
                == SmError::PointNotOnCurve && (pk_parse(pk@) matches Some((x, y)) && (x >= p_nat()
                || y >= p_nat() || !on_curve_n(PtN::At(x, y))))) || (e == SmError::EncryptionFailed
                && (pk_parse(pk@) matches Some((x, y)) && x < p_nat() && y < p_nat() && on_curve_n(
                PtN::At(x, y),
            ))),
        },
{
    let pt = match parse_pk(pk) {
        Ok(pt) => pt,
        Err(e) => {
            return Err(e);
        },
    };
    let mut tries: usize = 0;
    while tries < 64
        invariant
            pt_ok(pt),
            pt matches CurvePoint::Affine(_, _),
            pk_parse(pk@) matches Some((x, y)) && pt_view(pt) == PtN::At(x, y) && x < p_nat() && y
                < p_nat() && on_curve_n(PtN::At(x, y)),
            buffer@.len() < 0x8000_0000,
        decreases 64 - tries,
    {
        tries = tries + 1;
        let k = match draw_scalar() {
            Some(k) => k,
            None => {
                continue ;
            },
        };
        match sm2_encrypt_with_k(&pt, buffer.as_slice(), &k, c1c3c2) {
            Ok(c) => {
                return Ok(c);
            },
            Err(_) => {
                continue ;
            },
        }
    }
    Err(SmError::EncryptionFailed)
}

/// Decrypt with a hex private key, reading the point, tag, masked message order.
pub fn sm2_decrypt_c1c3c2(sk: String, buffer: Vec<u8>) -> (r: Result<Vec<u8>, SmError>)
    requires
        buffer@.len() < 0x8000_0000,
    ensures
        match r {
            Ok(m) => sk_parse(sk@) matches Some(v) && 1 <= v < n_nat() && !decrypt_ops_fail(
                v,
                buffer@,
            ) && decrypt_spec(v, buffer@, true) == Ok::<Seq<u8>, SmError>(m@),
            Err(e) => (e == SmError::InvalidKeyLength && sk_parse(sk@) is None) || (e
                == SmError::InvalidOperand && (sk_parse(sk@) matches Some(v) && (v == 0 || v
                >= n_nat()))) || (sk_parse(sk@) matches Some(v) && 1 <= v < n_nat()
                && decrypt_ops_fail(v, buffer@) && e == SmError::InvalidOperand) || (sk_parse(sk@)
                matches Some(v) && 1 <= v < n_nat() && !decrypt_ops_fail(v, buffer@)
                && decrypt_spec(v, buffer@, true) == Err::<Seq<u8>, SmError>(e)),
        },
{
    let f = match parse_sk(&sk) {
        Ok(f) => f,
        Err(e) => {
            return Err(e);
        },
    };
    sm2_decrypt_core(&f, buffer.as_slice(), true)
}

/// Decrypt with a hex private key, reading the point, masked message, tag order.
pub fn sm2_decrypt_c1c2c3(sk: String, buffer: Vec<u8>) -> (r: Result<Vec<u8>, SmError>)
    requires
        buffer@.len() < 0x8000_0000,
    ensures
        match r {
            Ok(m) => sk_parse(sk@) matches Some(v) && 1 <= v < n_nat() && !decrypt_ops_fail(
                v,
                buffer@,
            ) && decrypt_spec(v, buffer@, false) == Ok::<Seq<u8>, SmError>(m@),
            Err(e) => (e == SmError::InvalidKeyLength && sk_parse(sk@) is None) || (e
                == SmError::InvalidOperand && (sk_parse(sk@) matches Some(v) && (v == 0 || v
                >= n_nat()))) || (sk_parse(sk@) matches Some(v) && 1 <= v < n_nat()
                && decrypt_ops_fail(v, buffer@) && e == SmError::InvalidOperand) || (sk_parse(sk@)
                matches Some(v) && 1 <= v < n_nat() && !decrypt_ops_fail(v, buffer@)
                && decrypt_spec(v, buffer@, false) == Err::<Seq<u8>, SmError>(e)),
        },
{
    let f = match parse_sk(&sk) {
        Ok(f) => f,
        Err(e) => {
            return Err(e);
        },
    };
    sm2_decrypt_core(&f, buffer.as_slice(), false)
}

/// The SM3 digest of a buffer, as a lower-case hex string.
pub fn sm3_digest(buffer: Vec<u8>) -> (r: String)
    requires
        buffer@.len() < 0x2000_0000_0000_0000,
    ensures
        r@ == hex_of(sm3_spec(buffer@)),
{
    let dg = sm3_hash(buffer.as_slice());
    bytes_to_hex(dg.as_slice())
}

/// Encrypt in SM4 codebook mode under a 16-byte key, with block padding.
pub fn sm4_encrypt_ecb(k: Vec<u8>, buffer: Vec<u8>) -> (r: Result<Vec<u8>, SmError>)
    ensures
        match r {
            Ok(c) => k@.len() == 16 && c@ == ecb_enc(rks_of_key(k@), pad16(buffer@)),
            Err(e) => e == SmError::InvalidKeyLength && k@.len() != 16,
        },
{
    crate::sm4::sm4_ecb_encrypt(k.as_slice(), buffer.as_slice())
}

/// Decrypt in SM4 codebook mode and strip the padding.
pub fn sm4_decrypt_ecb(k: Vec<u8>, buffer: Vec<u8>) -> (r: Result<Vec<u8>, SmError>)
    ensures
        match r {
            Ok(m) => k@.len() == 16 && buffer@.len() % 16 == 0 && buffer@.len() > 0 && unpad16(
                ecb_dec(rks_of_key(k@), buffer@),
            ) == Some(m@),
            Err(e) => (e == SmError::InvalidKeyLength && k@.len() != 16) || (e
                == SmError::MalformedCiphertext && k@.len() == 16 && (buffer@.len() % 16 != 0
                || buffer@.len() == 0)) || (e == SmError::InvalidPadding && k@.len() == 16
                && buffer@.len() % 16 == 0 && buffer@.len() > 0 && unpad16(
                ecb_dec(rks_of_key(k@), buffer@),
            ) is None),
        },
{
    crate::sm4::sm4_ecb_decrypt(k.as_slice(), buffer.as_slice())
}

/// Encrypt in SM4 chaining mode under a 16-byte key and IV, with block padding.
pub fn sm4_encrypt_cbc(k: Vec<u8>, iv: Vec<u8>, buffer: Vec<u8>) -> (r: Result<Vec<u8>, SmError>)
    ensures
        match r {
            Ok(c) => k@.len() == 16 && iv@.len() == 16 && c@ == cbc_enc(
                rks_of_key(k@),
                iv@,
                pad16(buffer@),
            ),
            Err(e) => e == SmError::InvalidKeyLength && (k@.len() != 16 || iv@.len() != 16),
        },
{
    crate::sm4::sm4_cbc_encrypt(k.as_slice(), iv.as_slice(), buffer.as_slice())
}

/// Decrypt in SM4 chaining mode and strip the padding.
pub fn sm4_decrypt_cbc(k: Vec<u8>, iv: Vec<u8>, buffer: Vec<u8>) -> (r: Result<Vec<u8>, SmError>)
    ensures
        match r {
            Ok(m) => k@.len() == 16 && iv@.len() == 16 && buffer@.len() % 16 == 0 && buffer@.len()
                > 0 && unpad16(cbc_dec(rks_of_key(k@), iv@, buffer@)) == Some(m@),
            Err(e) => (e == SmError::InvalidKeyLength && (k@.len() != 16 || iv@.len() != 16)) || (e
                == SmError::MalformedCiphertext && k@.len() == 16 && iv@.len() == 16 && (
            buffer@.len() % 16 != 0 || buffer@.len() == 0)) || (e == SmError::InvalidPadding
                && k@.len() == 16 && iv@.len() == 16 && buffer@.len() % 16 == 0 && buffer@.len() > 0
                && unpad16(cbc_dec(rks_of_key(k@), iv@, buffer@)) is None),
        },
{
    crate::sm4::sm4_cbc_decrypt(k.as_slice(), iv.as_slice(), buffer.as_slice())
}

} // verus!
