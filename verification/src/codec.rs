//! Hexadecimal encoding and decoding, and parsing hex digits into field-width
//! values, with the string side bridged through ASCII byte views.

use vstd::prelude::*;
use vstd::arithmetic::power2::*;
use vstd::string::StringExecFns;
use crate::fe::{as_nat, fe_zero, lemma_pow2_limbs, Fe};

verus! {

/// The value of one hex digit byte, or a negative marker.
pub open spec fn hexv(b: u8) -> int {
    if 48 <= b <= 57 {
        b - 48
    } else if 97 <= b <= 102 {
        b - 87
    } else if 65 <= b <= 70 {
        b - 55
    } else {
        -1
    }
}

pub open spec fn is_hexb(s: Seq<u8>) -> bool {
    forall|i: int| 0 <= i < s.len() ==> hexv(#[trigger] s[i]) >= 0
}

/// The value of a big-endian hex digit string.
pub open spec fn nat_of_hexb(s: Seq<u8>) -> nat
    decreases s.len(),
{
    if s.len() == 0 {
        0
    } else {
        (nat_of_hexb(s.drop_last()) * 16 + (if hexv(s.last()) >= 0 {
            hexv(s.last())
        } else {
            0
        })) as nat
    }
}

/// A string of chars as the bytes it holds when it is ASCII.
pub open spec fn ascii_bytes(s: Seq<char>) -> Seq<u8> {
    Seq::new(s.len(), |i: int| s[i] as u8)
}

/// The lower-case hex digit for a value below 16.
pub open spec fn hex_digit(n: u8) -> char {
    if n == 0 {
        '0'
    } else if n == 1 {
        '1'
    } else if n == 2 {
        '2'
    } else if n == 3 {
        '3'
    } else if n == 4 {
        '4'
    } else if n == 5 {
        '5'
    } else if n == 6 {
        '6'
    } else if n == 7 {
        '7'
    } else if n == 8 {
        '8'
    } else if n == 9 {
        '9'
    } else if n == 10 {
        'a'
    } else if n == 11 {
        'b'
    } else if n == 12 {
        'c'
    } else if n == 13 {
        'd'
    } else if n == 14 {
        'e'
    } else {
        'f'
    }
}

/// The lower-case hex form of a byte string: two digits a byte.
pub open spec fn hex_of(s: Seq<u8>) -> Seq<char> {
    Seq::new(
        2 * s.len(),
        |i: int|
            if i % 2 == 0 {
                hex_digit((s[i / 2] >> 4) & 0xf)
            } else {
                hex_digit(s[i / 2] & 0xf)
            },
    )
}

fn append_digit(out: &mut String, n: u8)
    requires
        n < 16,
    ensures
        final(out)@ == old(out)@ + seq![hex_digit(n)],
{
    if n == 0 {
        proof {
            reveal_strlit("0");
        }
        out.append("0");
    } else if n == 1 {
        proof {
            reveal_strlit("1");
        }
        out.append("1");
    } else if n == 2 {
        proof {
            reveal_strlit("2");
        }
        out.append("2");
    } else if n == 3 {
        proof {
            reveal_strlit("3");
        }
        out.append("3");
    } else if n == 4 {
        proof {
            reveal_strlit("4");
        }
        out.append("4");
    } else if n == 5 {
        proof {
            reveal_strlit("5");
        }
        out.append("5");
    } else if n == 6 {
        proof {
            reveal_strlit("6");
        }
        out.append("6");
    } else if n == 7 {
        proof {
            reveal_strlit("7");
        }
        out.append("7");
    } else if n == 8 {
        proof {
            reveal_strlit("8");
        }
        out.append("8");
    } else if n == 9 {
        proof {
            reveal_strlit("9");
        }
        out.append("9");
    } else if n == 10 {
        proof {
            reveal_strlit("a");
        }
        out.append("a");
    } else if n == 11 {
        proof {
            reveal_strlit("b");
        }
        out.append("b");
    } else if n == 12 {
        proof {
            reveal_strlit("c");
        }
        out.append("c");
    } else if n == 13 {
        proof {
            reveal_strlit("d");
        }
        out.append("d");
    } else if n == 14 {
        proof {
            reveal_strlit("e");
        }
        out.append("e");
    } else {
        proof {
            reveal_strlit("f");
        }
        out.append("f");
    }
}

/// Encode bytes as a lower-case hex string.
pub fn bytes_to_hex(b: &[u8]) -> (r: String)
    ensures
        r@ == hex_of(b@),
{
    let mut out = String::new();
    let mut i: usize = 0;
    while i < b.len()
        invariant
            i <= b@.len(),
            out@ == hex_of(b@).take(2 * i as int),
        decreases b@.len() - i,
    {
        let bi: u8 = b[i];
        let hi: u8 = (bi >> 4) & 0xf;
        let lo: u8 = bi & 0xf;
        assert((bi >> 4) & 0xf < 16 && bi & 0xf < 16) by (bit_vector);
        append_digit(&mut out, hi);
        append_digit(&mut out, lo);
        proof {
            assert(out@ =~= hex_of(b@).take(2 * (i + 1)));
        }
        i = i + 1;
    }
    proof {
        assert(hex_of(b@).take(2 * b@.len() as int) =~= hex_of(b@));
    }
    out
}

/// The value of one hex digit byte, computed.
fn hexv_e(b: u8) -> (r: i8)
    ensures
        r as int == hexv(b),
{
    if 48 <= b && b <= 57 {
        (b - 48) as i8
    } else if 97 <= b && b <= 102 {
        (b - 87) as i8
    } else if 65 <= b && b <= 70 {
        (b - 55) as i8
    } else {
        -1
    }
}

/// Shift a value one hex digit up and bring a new digit in.
fn mul16_add(x: &Fe, v: u8) -> (r: Fe)
    requires
        x.l3 < 0x1000_0000_0000_0000,
        v < 16,
    ensures
        as_nat(r) == as_nat(*x) * 16 + v,
{
    let r0: u64 = (x.l0 % 0x1000_0000_0000_0000) * 16 + v as u64;
    let r1: u64 = (x.l1 % 0x1000_0000_0000_0000) * 16 + x.l0 / 0x1000_0000_0000_0000;
    let r2: u64 = (x.l2 % 0x1000_0000_0000_0000) * 16 + x.l1 / 0x1000_0000_0000_0000;
    let r3: u64 = x.l3 * 16 + x.l2 / 0x1000_0000_0000_0000;
    Fe { l0: r0, l1: r1, l2: r2, l3: r3 }
}

proof fn lemma_nat_of_hexb_bound(s: Seq<u8>)
    ensures
        nat_of_hexb(s) < pow2(4 * s.len()),
    decreases s.len(),
{
    if s.len() == 0 {
        lemma_pow2_limbs();
    } else {
        lemma_nat_of_hexb_bound(s.drop_last());
        lemma_pow2_adds(4 * (s.len() - 1) as nat, 4);
        lemma2_to64();
        assert(pow2(4 * s.len()) == pow2(4 * (s.len() - 1) as nat) * 16);
        let d: int = if hexv(s.last()) >= 0 {
            hexv(s.last())
        } else {
            0
        };
        assert(nat_of_hexb(s.drop_last()) * 16 + d < pow2(4 * (s.len() - 1) as nat) * 16)
            by (nonlinear_arith)
            requires
                nat_of_hexb(s.drop_last()) < pow2(4 * (s.len() - 1) as nat),
                0 <= d < 16,
        ;
    }
}

/// Parse 64 hex digits into a field-width value; reports the first bad digit.
pub fn fe_from_hex(s: &[u8]) -> (r: Option<Fe>)
    requires
        s@.len() == 64,
    ensures
        match r {
            Some(f) => is_hexb(s@) && as_nat(f) == nat_of_hexb(s@),
            None => !is_hexb(s@),
        },
{
    let mut acc = fe_zero();
    let mut i: usize = 0;
    proof {
        assert(s@.take(0) =~= Seq::<u8>::empty());
        lemma_pow2_limbs();
    }
    while i < 64
        invariant
            i <= 64,
            s@.len() == 64,
            is_hexb(s@.take(i as int)),
            as_nat(acc) == nat_of_hexb(s@.take(i as int)),
            as_nat(acc) < pow2(4 * i as nat),
        decreases 64 - i,
    {
        let v = hexv_e(s[i]);
        if v < 0 {
            proof {
                assert(!is_hexb(s@));
            }
            return None;
        }
        proof {
            lemma_pow2_limbs();
            if acc.l3 >= 0x1000_0000_0000_0000 {
                assert(as_nat(acc) >= 0x1000_0000_0000_0000int
                    * 0x1_0000_0000_0000_0000_0000_0000_0000_0000_0000_0000_0000_0000int);
                assert(pow2(4 * i as nat) <= pow2(252)) by {
                    if (4 * (i as nat)) < 252 {
                        lemma_pow2_strictly_increases(4 * i as nat, 252);
                    }
                }
                lemma2_to64();
                lemma2_to64_rest();
                lemma_pow2_adds(192, 60);
                assert(as_nat(acc) < pow2(252));
                assert(false);
            }
        }
        acc = mul16_add(&acc, v as u8);
        proof {
            assert(s@.take(i + 1).drop_last() =~= s@.take(i as int));
            assert(s@.take(i + 1).last() == s@[i as int]);
            assert(is_hexb(s@.take(i + 1)));
            lemma_pow2_adds(4 * i as nat, 4);
            lemma2_to64();
            assert(as_nat(acc) < pow2(4 * (i + 1) as nat)) by (nonlinear_arith)
                requires
                    as_nat(acc) == nat_of_hexb(s@.take(i as int)) * 16 + hexv(s@[i as int]),
                    nat_of_hexb(s@.take(i as int)) < pow2(4 * i as nat),
                    0 <= hexv(s@[i as int]) < 16,
                    pow2(4 * (i + 1) as nat) == pow2(4 * i as nat) * pow2(4),
                    pow2(4) == 16,
            ;
        }
        i = i + 1;
    }
    proof {
        assert(s@.take(64) =~= s@);
    }
    Some(acc)
}

} // verus!
