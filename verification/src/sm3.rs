//! The SM3 hash: a 64-round compression function over 64-byte blocks,
//! with length padding, defined word for word in the model and proved
//! equal to the computed digest.

use vstd::prelude::*;
use vstd::wrapping::u32_specs;

verus! {

/// Left rotation of a 32-bit word.
pub open spec fn rotl(x: u32, n: u32) -> u32
    recommends
        n < 32,
{
    if n == 0 {
        x
    } else {
        (x << n) | (x >> ((32 - n) as u32))
    }
}

pub fn rotl_e(x: u32, n: u32) -> (r: u32)
    requires
        n < 32,
    ensures
        r == rotl(x, n),
{
    if n == 0 {
        x
    } else {
        (x << n) | (x >> (32 - n))
    }
}

pub open spec fn wadd(a: u32, b: u32) -> u32 {
    u32_specs::wrapping_add(a, b)
}

pub open spec fn ff(j: int, x: u32, y: u32, z: u32) -> u32 {
    if j < 16 {
        x ^ y ^ z
    } else {
        (x & y) | (x & z) | (y & z)
    }
}

pub open spec fn gg(j: int, x: u32, y: u32, z: u32) -> u32 {
    if j < 16 {
        x ^ y ^ z
    } else {
        (x & y) | (!x & z)
    }
}

pub open spec fn perm0(x: u32) -> u32 {
    x ^ rotl(x, 9) ^ rotl(x, 17)
}

pub open spec fn perm1(x: u32) -> u32 {
    x ^ rotl(x, 15) ^ rotl(x, 23)
}

pub open spec fn tj(j: int) -> u32 {
    if j < 16 {
        0x79cc4519u32
    } else {
        0x7a879d8au32
    }
}

/// The expanded message word `W_j` of a 16-word block.
pub open spec fn msg_w(b: Seq<u32>, j: int) -> u32
    recommends
        b.len() == 16,
        0 <= j < 68,
    decreases j,
{
    if j < 0 {
        0
    } else if j < 16 {
        b[j]
    } else {
        perm1(msg_w(b, j - 16) ^ msg_w(b, j - 9) ^ rotl(msg_w(b, j - 3), 15)) ^ rotl(
            msg_w(b, j - 13),
            7,
        ) ^ msg_w(b, j - 6)
    }
}

pub open spec fn msg_w1(b: Seq<u32>, j: int) -> u32 {
    msg_w(b, j) ^ msg_w(b, j + 4)
}

/// One round of the compression function on the eight-word state.
pub open spec fn cf_round(b: Seq<u32>, v: Seq<u32>, j: int) -> Seq<u32> {
    let ss1 = rotl(
        wadd(wadd(rotl(v[0], 12), v[4]), rotl(tj(j), (j % 32) as u32)),
        7,
    );
    let ss2 = ss1 ^ rotl(v[0], 12);
    let tt1 = wadd(wadd(wadd(ff(j, v[0], v[1], v[2]), v[3]), ss2), msg_w1(b, j));
    let tt2 = wadd(wadd(wadd(gg(j, v[4], v[5], v[6]), v[7]), ss1), msg_w(b, j));
    seq![tt1, v[0], rotl(v[1], 9), v[2], perm0(tt2), v[4], rotl(v[5], 19), v[6]]
}

pub open spec fn cf_rounds(b: Seq<u32>, v: Seq<u32>, j: int) -> Seq<u32>
    decreases j,
{
    if j <= 0 {
        v
    } else {
        cf_round(b, cf_rounds(b, v, j - 1), j - 1)
    }
}

/// The full compression function: 64 rounds, then a XOR with the input state.
pub open spec fn compress(v: Seq<u32>, b: Seq<u32>) -> Seq<u32> {
    let w = cf_rounds(b, v, 64);
    Seq::new(8, |i: int| w[i] ^ v[i])
}

pub open spec fn sm3_iv() -> Seq<u32> {
    seq![
        0x7380166fu32,
        0x4914b2b9u32,
        0x172442d7u32,
        0xda8a0600u32,
        0xa96f30bcu32,
        0x163138aau32,
        0xe38dee4du32,
        0xb0fb0e4eu32,
    ]
}

/// The big-endian word starting at byte `i`.
pub open spec fn word_at(s: Seq<u8>, i: int) -> u32 {
    ((s[i] as u32) << 24) | ((s[i + 1] as u32) << 16) | ((s[i + 2] as u32) << 8) | (s[i + 3] as u32)
}

pub open spec fn block_words(s: Seq<u8>, off: int) -> Seq<u32> {
    Seq::new(16, |i: int| word_at(s, off + 4 * i))
}

/// Merkle-Damgard padding: a `0x80` byte, zeros, then the bit length.
pub open spec fn sm3_pad(m: Seq<u8>) -> Seq<u8> {
    let z = (119 - (m.len() % 64)) % 64;
    m + seq![0x80u8] + Seq::new(z as nat, |i: int| 0u8) + Seq::new(
        8,
        |i: int| ((((8 * m.len()) as u64) >> ((56 - 8 * i) as u64)) & 0xff) as u8,
    )
}

/// The state after the first `i` blocks of a padded message.
pub open spec fn state_at(s: Seq<u8>, i: int) -> Seq<u32>
    decreases i,
{
    if i <= 0 {
        sm3_iv()
    } else {
        compress(state_at(s, i - 1), block_words(s, 64 * (i - 1)))
    }
}

/// The 32-byte SM3 digest of a message.
pub open spec fn sm3_spec(m: Seq<u8>) -> Seq<u8> {
    let padded = sm3_pad(m);
    let v = state_at(padded, (padded.len() / 64) as int);
    Seq::new(32, |i: int| ((v[i / 4] >> ((24 - 8 * (i % 4)) as u32)) & 0xff) as u8)
}

/// Compute the digest of a byte string.
pub fn sm3_hash(msg: &[u8]) -> (r: Vec<u8>)
    requires
        msg@.len() < 0x2000_0000_0000_0000,
    ensures
        r@.len() == 32,
        r@ == sm3_spec(msg@),
{
    // build the padded message
    let len: usize = msg.len();
    let mut padded: Vec<u8> = Vec::new();
    let mut i: usize = 0;
    while i < len
        invariant
            i <= len,
            len == msg@.len(),
            padded@ == msg@.take(i as int),
        decreases len - i,
    {
        padded.push(msg[i]);
        proof {
            assert(padded@ =~= msg@.take(i + 1));
        }
        i = i + 1;
    }
    proof {
        assert(msg@.take(len as int) =~= msg@);
    }
    padded.push(0x80);
    proof {
        assert(padded@ =~= msg@ + seq![0x80u8] + Seq::new(0, |i: int| 0u8));
    }
    let z: usize = (119 - (len % 64)) % 64;
    let mut zi: usize = 0;
    while zi < z
        invariant
            zi <= z,
            len == msg@.len(),
            z == (119 - (len % 64)) % 64,
            padded@ == msg@ + seq![0x80u8] + Seq::new(zi as nat, |i: int| 0u8),
        decreases z - zi,
    {
        padded.push(0);
        proof {
            assert(padded@ =~= msg@ + seq![0x80u8] + Seq::new((zi + 1) as nat, |i: int| 0u8));
        }
        zi = zi + 1;
    }
    let bitlen: u64 = (len as u64) * 8;
    let mut bi: usize = 0;
    while bi < 8
        invariant
            bi <= 8,
            len == msg@.len(),
            z == (119 - (len % 64)) % 64,
            bitlen == 8 * len,
            padded@ == msg@ + seq![0x80u8] + Seq::new(z as nat, |i: int| 0u8) + Seq::new(
                bi as nat,
                |i: int| ((((8 * msg@.len()) as u64) >> ((56 - 8 * i) as u64)) & 0xff) as u8,
            ),
        decreases 8 - bi,
    {
        let b: u8 = ((bitlen >> ((56 - 8 * bi) as u64)) & 0xff) as u8;
        padded.push(b);
        proof {
            assert(padded@ =~= msg@ + seq![0x80u8] + Seq::new(z as nat, |i: int| 0u8) + Seq::new(
                (bi + 1) as nat,
                |i: int| ((((8 * msg@.len()) as u64) >> ((56 - 8 * i) as u64)) & 0xff) as u8,
            ));
        }
        bi = bi + 1;
    }
    proof {
        assert(padded@ =~= sm3_pad(msg@));
        assert(padded@.len() == len + 1 + z + 8);
        assert((len + 1 + z + 8) % 64 == 0) by {
            assert(z == (119 - (len % 64)) % 64);
            assert(len % 64 <= 63);
        }
    }
    // process the blocks
    let plen: usize = padded.len();
    let nblocks: usize = plen / 64;
    let mut st: [u32; 8] = [
        0x7380166f,
        0x4914b2b9,
        0x172442d7,
        0xda8a0600,
        0xa96f30bc,
        0x163138aa,
        0xe38dee4d,
        0xb0fb0e4e,
    ];
    let mut blk: usize = 0;
    proof {
        assert(st@ =~= sm3_iv());
    }
    while blk < nblocks
        invariant
            blk <= nblocks,
            plen == padded@.len(),
            nblocks == padded@.len() / 64,
            padded@.len() % 64 == 0,
            padded@ == sm3_pad(msg@),
            st@ =~= state_at(padded@, blk as int),
        decreases nblocks - blk,
    {
        proof {
            assert(padded@.len() == 64 * (padded@.len() / 64));
            assert(64 * (blk + 1) <= 64 * nblocks);
        }
        let base: usize = blk * 64;
        let ghost bw: Seq<u32> = block_words(padded@, base as int);
        // message expansion
        let mut wv: Vec<u32> = Vec::new();
        let mut j: usize = 0;
        while j < 16
            invariant
                j <= 16,
                plen == padded@.len(),
                base + 64 <= padded@.len(),
                padded@ == sm3_pad(msg@),
                bw == block_words(padded@, base as int),
                wv@.len() == j,
                forall|t: int| 0 <= t < j ==> wv@[t] == msg_w(bw, t),
            decreases 16 - j,
        {
            let b0 = padded[base + 4 * j];
            let b1 = padded[base + 4 * j + 1];
            let b2 = padded[base + 4 * j + 2];
            let b3 = padded[base + 4 * j + 3];
            let word: u32 = ((b0 as u32) << 24) | ((b1 as u32) << 16) | ((b2 as u32) << 8) | (
            b3 as u32);
            proof {
                assert(bw[j as int] == word_at(padded@, base + 4 * j));
                assert(word == word_at(padded@, base + 4 * j));
                assert(msg_w(bw, j as int) == bw[j as int]);
            }
            wv.push(word);
            proof {
                assert(wv@[j as int] == word);
                assert(forall|t: int| 0 <= t < j + 1 ==> wv@[t] == msg_w(bw, t));
            }
            j = j + 1;
        }
        while j < 68
            invariant
                16 <= j <= 68,
                bw == block_words(padded@, base as int),
                wv@.len() == j,
                forall|t: int| 0 <= t < j ==> wv@[t] == msg_w(bw, t),
            decreases 68 - j,
        {
            let x = wv[j - 16] ^ wv[j - 9] ^ rotl_e(wv[j - 3], 15);
            let word = perm1_e(x) ^ rotl_e(wv[j - 13], 7) ^ wv[j - 6];
            proof {
                assert(msg_w(bw, j as int) == perm1(
                    msg_w(bw, j - 16) ^ msg_w(bw, j - 9) ^ rotl(msg_w(bw, j - 3), 15),
                ) ^ rotl(msg_w(bw, j - 13), 7) ^ msg_w(bw, j - 6));
                assert(word == msg_w(bw, j as int));
            }
            wv.push(word);
            proof {
                assert(forall|t: int| 0 <= t < j + 1 ==> wv@[t] == msg_w(bw, t));
            }
            j = j + 1;
        }
        // the 64 rounds
        let mut a = st[0];
        let mut b = st[1];
        let mut c = st[2];
        let mut d = st[3];
        let mut e = st[4];
        let mut f = st[5];
        let mut g = st[6];
        let mut h = st[7];
        let ghost v0: Seq<u32> = st@;
        let mut rj: usize = 0;
        while rj < 64
            invariant
                rj <= 64,
                bw == block_words(padded@, base as int),
                wv@.len() == 68,
                forall|t: int| 0 <= t < 68 ==> wv@[t] == msg_w(bw, t),
                seq![a, b, c, d, e, f, g, h] =~= cf_rounds(bw, v0, rj as int),
            decreases 64 - rj,
        {
            let t: u32 = if rj < 16 {
                0x79cc4519
            } else {
                0x7a879d8a
            };
            let ss1 = rotl_e(
                rotl_e(a, 12).wrapping_add(e).wrapping_add(rotl_e(t, (rj % 32) as u32)),
                7,
            );
            let ss2 = ss1 ^ rotl_e(a, 12);
            let ffv: u32 = if rj < 16 {
                a ^ b ^ c
            } else {
                (a & b) | (a & c) | (b & c)
            };
            let ggv: u32 = if rj < 16 {
                e ^ f ^ g
            } else {
                (e & f) | (!e & g)
            };
            let w1 = wv[rj] ^ wv[rj + 4];
            let tt1 = ffv.wrapping_add(d).wrapping_add(ss2).wrapping_add(w1);
            let tt2 = ggv.wrapping_add(h).wrapping_add(ss1).wrapping_add(wv[rj]);
            d = c;
            c = rotl_e(b, 9);
            b = a;
            a = tt1;
            h = g;
            g = rotl_e(f, 19);
            f = e;
            e = perm0_e(tt2);
            proof {
                assert(seq![a, b, c, d, e, f, g, h] =~= cf_round(
                    bw,
                    cf_rounds(bw, v0, rj as int),
                    rj as int,
                ));
            }
            rj = rj + 1;
        }
        st = [
            a ^ st[0],
            b ^ st[1],
            c ^ st[2],
            d ^ st[3],
            e ^ st[4],
            f ^ st[5],
            g ^ st[6],
            h ^ st[7],
        ];
        proof {
            assert(st@ =~= compress(v0, bw));
            assert(64 * (blk as int) == base);
        }
        blk = blk + 1;
    }
    // serialize the state
    let mut out: Vec<u8> = Vec::new();
    let mut oi: usize = 0;
    while oi < 32
        invariant
            oi <= 32,
            st@ == state_at(sm3_pad(msg@), (sm3_pad(msg@).len() / 64) as int),
            padded@ == sm3_pad(msg@),
            out@.len() == oi,
            forall|t: int|
                0 <= t < oi ==> out@[t] == ((st@[t / 4] >> ((24 - 8 * (t % 4)) as u32))
                    & 0xff) as u8,
        decreases 32 - oi,
    {
        let wd: u32 = st[oi / 4];
        let b: u8 = ((wd >> ((24 - 8 * (oi % 4)) as u32)) & 0xff) as u8;
        out.push(b);
        oi = oi + 1;
    }
    proof {
        assert(out@ =~= sm3_spec(msg@));
    }
    out
}

fn perm0_e(x: u32) -> (r: u32)
    ensures
        r == perm0(x),
{
    x ^ rotl_e(x, 9) ^ rotl_e(x, 17)
}

fn perm1_e(x: u32) -> (r: u32)
    ensures
        r == perm1(x),
{
    x ^ rotl_e(x, 15) ^ rotl_e(x, 23)
}

/// The digest is a function of the message alone: equal messages hash alike.
pub proof fn lemma_sm3_deterministic(m1: Seq<u8>, m2: Seq<u8>)
    requires
        m1 == m2,
    ensures
        sm3_spec(m1) == sm3_spec(m2),
{
}

} // verus!
