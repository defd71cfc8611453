//! The SM4 block cipher: 32 rounds of substitution and linear diffusion over
//! four 32-bit words, its key schedule, the ECB and CBC chaining modes with
//! block padding, and the proof that decryption inverts encryption.

use vstd::prelude::*;
use crate::sm3::{rotl, rotl_e, word_at};
use crate::SmError;

verus! {

/// The SM4 substitution box.
#[verifier::opaque]
pub open spec fn sbox(x: u8) -> u8 {
    match x {
        0x00 => 0xd6,
        0x01 => 0x90,
        0x02 => 0xe9,
        0x03 => 0xfe,
        0x04 => 0xcc,
        0x05 => 0xe1,
        0x06 => 0x3d,
        0x07 => 0xb7,
        0x08 => 0x16,
        0x09 => 0xb6,
        0x0a => 0x14,
        0x0b => 0xc2,
        0x0c => 0x28,
        0x0d => 0xfb,
        0x0e => 0x2c,
        0x0f => 0x05,
        0x10 => 0x2b,
        0x11 => 0x67,
        0x12 => 0x9a,
        0x13 => 0x76,
        0x14 => 0x2a,
        0x15 => 0xbe,
        0x16 => 0x04,
        0x17 => 0xc3,
        0x18 => 0xaa,
        0x19 => 0x44,
        0x1a => 0x13,
        0x1b => 0x26,
        0x1c => 0x49,
        0x1d => 0x86,
        0x1e => 0x06,
        0x1f => 0x99,
        0x20 => 0x9c,
        0x21 => 0x42,
        0x22 => 0x50,
        0x23 => 0xf4,
        0x24 => 0x91,
        0x25 => 0xef,
        0x26 => 0x98,
        0x27 => 0x7a,
        0x28 => 0x33,
        0x29 => 0x54,
        0x2a => 0x0b,
        0x2b => 0x43,
        0x2c => 0xed,
        0x2d => 0xcf,
        0x2e => 0xac,
        0x2f => 0x62,
        0x30 => 0xe4,
        0x31 => 0xb3,
        0x32 => 0x1c,
        0x33 => 0xa9,
        0x34 => 0xc9,
        0x35 => 0x08,
        0x36 => 0xe8,
        0x37 => 0x95,
        0x38 => 0x80,
        0x39 => 0xdf,
        0x3a => 0x94,
        0x3b => 0xfa,
        0x3c => 0x75,
        0x3d => 0x8f,
        0x3e => 0x3f,
        0x3f => 0xa6,
        0x40 => 0x47,
        0x41 => 0x07,
        0x42 => 0xa7,
        0x43 => 0xfc,
        0x44 => 0xf3,
        0x45 => 0x73,
        0x46 => 0x17,
        0x47 => 0xba,
        0x48 => 0x83,
        0x49 => 0x59,
        0x4a => 0x3c,
        0x4b => 0x19,
        0x4c => 0xe6,
        0x4d => 0x85,
        0x4e => 0x4f,
        0x4f => 0xa8,
        0x50 => 0x68,
        0x51 => 0x6b,
        0x52 => 0x81,
        0x53 => 0xb2,
        0x54 => 0x71,
        0x55 => 0x64,
        0x56 => 0xda,
        0x57 => 0x8b,
        0x58 => 0xf8,
        0x59 => 0xeb,
        0x5a => 0x0f,
        0x5b => 0x4b,
        0x5c => 0x70,
        0x5d => 0x56,
        0x5e => 0x9d,
        0x5f => 0x35,
        0x60 => 0x1e,
        0x61 => 0x24,
        0x62 => 0x0e,
        0x63 => 0x5e,
        0x64 => 0x63,
        0x65 => 0x58,
        0x66 => 0xd1,
        0x67 => 0xa2,
        0x68 => 0x25,
        0x69 => 0x22,
        0x6a => 0x7c,
        0x6b => 0x3b,
        0x6c => 0x01,
        0x6d => 0x21,
        0x6e => 0x78,
        0x6f => 0x87,
        0x70 => 0xd4,
        0x71 => 0x00,
        0x72 => 0x46,
        0x73 => 0x57,
        0x74 => 0x9f,
        0x75 => 0xd3,
        0x76 => 0x27,
        0x77 => 0x52,
        0x78 => 0x4c,
        0x79 => 0x36,
        0x7a => 0x02,
        0x7b => 0xe7,
        0x7c => 0xa0,
        0x7d => 0xc4,
        0x7e => 0xc8,
        0x7f => 0x9e,
        0x80 => 0xea,
        0x81 => 0xbf,
        0x82 => 0x8a,
        0x83 => 0xd2,
        0x84 => 0x40,
        0x85 => 0xc7,
        0x86 => 0x38,
        0x87 => 0xb5,
        0x88 => 0xa3,
        0x89 => 0xf7,
        0x8a => 0xf2,
        0x8b => 0xce,
        0x8c => 0xf9,
        0x8d => 0x61,
        0x8e => 0x15,
        0x8f => 0xa1,
        0x90 => 0xe0,
        0x91 => 0xae,
        0x92 => 0x5d,
        0x93 => 0xa4,
        0x94 => 0x9b,
        0x95 => 0x34,
        0x96 => 0x1a,
        0x97 => 0x55,
        0x98 => 0xad,
        0x99 => 0x93,
        0x9a => 0x32,
        0x9b => 0x30,
        0x9c => 0xf5,
        0x9d => 0x8c,
        0x9e => 0xb1,
        0x9f => 0xe3,
        0xa0 => 0x1d,
        0xa1 => 0xf6,
        0xa2 => 0xe2,
        0xa3 => 0x2e,
        0xa4 => 0x82,
        0xa5 => 0x66,
        0xa6 => 0xca,
        0xa7 => 0x60,
        0xa8 => 0xc0,
        0xa9 => 0x29,
        0xaa => 0x23,
        0xab => 0xab,
        0xac => 0x0d,
        0xad => 0x53,
        0xae => 0x4e,
        0xaf => 0x6f,
        0xb0 => 0xd5,
        0xb1 => 0xdb,
        0xb2 => 0x37,
        0xb3 => 0x45,
        0xb4 => 0xde,
        0xb5 => 0xfd,
        0xb6 => 0x8e,
        0xb7 => 0x2f,
        0xb8 => 0x03,
        0xb9 => 0xff,
        0xba => 0x6a,
        0xbb => 0x72,
        0xbc => 0x6d,
        0xbd => 0x6c,
        0xbe => 0x5b,
        0xbf => 0x51,
        0xc0 => 0x8d,
        0xc1 => 0x1b,
        0xc2 => 0xaf,
        0xc3 => 0x92,
        0xc4 => 0xbb,
        0xc5 => 0xdd,
        0xc6 => 0xbc,
        0xc7 => 0x7f,
        0xc8 => 0x11,
        0xc9 => 0xd9,
        0xca => 0x5c,
        0xcb => 0x41,
        0xcc => 0x1f,
        0xcd => 0x10,
        0xce => 0x5a,
        0xcf => 0xd8,
        0xd0 => 0x0a,
        0xd1 => 0xc1,
        0xd2 => 0x31,
        0xd3 => 0x88,
        0xd4 => 0xa5,
        0xd5 => 0xcd,
        0xd6 => 0x7b,
        0xd7 => 0xbd,
        0xd8 => 0x2d,
        0xd9 => 0x74,
        0xda => 0xd0,
        0xdb => 0x12,
        0xdc => 0xb8,
        0xdd => 0xe5,
        0xde => 0xb4,
        0xdf => 0xb0,
        0xe0 => 0x89,
        0xe1 => 0x69,
        0xe2 => 0x97,
        0xe3 => 0x4a,
        0xe4 => 0x0c,
        0xe5 => 0x96,
        0xe6 => 0x77,
        0xe7 => 0x7e,
        0xe8 => 0x65,
        0xe9 => 0xb9,
        0xea => 0xf1,
        0xeb => 0x09,
        0xec => 0xc5,
        0xed => 0x6e,
        0xee => 0xc6,
        0xef => 0x84,
        0xf0 => 0x18,
        0xf1 => 0xf0,
        0xf2 => 0x7d,
        0xf3 => 0xec,
        0xf4 => 0x3a,
        0xf5 => 0xdc,
        0xf6 => 0x4d,
        0xf7 => 0x20,
        0xf8 => 0x79,
        0xf9 => 0xee,
        0xfa => 0x5f,
        0xfb => 0x3e,
        0xfc => 0xd7,
        0xfd => 0xcb,
        0xfe => 0x39,
        0xff => 0x48,
    }
}

fn sbox_e(x: u8) -> (r: u8)
    ensures
        r == sbox(x),
{
    proof {
        reveal(sbox);
    }
    match x {
        0x00 => 0xd6,
        0x01 => 0x90,
        0x02 => 0xe9,
        0x03 => 0xfe,
        0x04 => 0xcc,
        0x05 => 0xe1,
        0x06 => 0x3d,
        0x07 => 0xb7,
        0x08 => 0x16,
        0x09 => 0xb6,
        0x0a => 0x14,
        0x0b => 0xc2,
        0x0c => 0x28,
        0x0d => 0xfb,
        0x0e => 0x2c,
        0x0f => 0x05,
        0x10 => 0x2b,
        0x11 => 0x67,
        0x12 => 0x9a,
        0x13 => 0x76,
        0x14 => 0x2a,
        0x15 => 0xbe,
        0x16 => 0x04,
        0x17 => 0xc3,
        0x18 => 0xaa,
        0x19 => 0x44,
        0x1a => 0x13,
        0x1b => 0x26,
        0x1c => 0x49,
        0x1d => 0x86,
        0x1e => 0x06,
        0x1f => 0x99,
        0x20 => 0x9c,
        0x21 => 0x42,
        0x22 => 0x50,
        0x23 => 0xf4,
        0x24 => 0x91,
        0x25 => 0xef,
        0x26 => 0x98,
        0x27 => 0x7a,
        0x28 => 0x33,
        0x29 => 0x54,
        0x2a => 0x0b,
        0x2b => 0x43,
        0x2c => 0xed,
        0x2d => 0xcf,
        0x2e => 0xac,
        0x2f => 0x62,
        0x30 => 0xe4,
        0x31 => 0xb3,
        0x32 => 0x1c,
        0x33 => 0xa9,
        0x34 => 0xc9,
        0x35 => 0x08,
        0x36 => 0xe8,
        0x37 => 0x95,
        0x38 => 0x80,
        0x39 => 0xdf,
        0x3a => 0x94,
        0x3b => 0xfa,
        0x3c => 0x75,
        0x3d => 0x8f,
        0x3e => 0x3f,
        0x3f => 0xa6,
        0x40 => 0x47,
        0x41 => 0x07,
        0x42 => 0xa7,
        0x43 => 0xfc,
        0x44 => 0xf3,
        0x45 => 0x73,
        0x46 => 0x17,
        0x47 => 0xba,
        0x48 => 0x83,
        0x49 => 0x59,
        0x4a => 0x3c,
        0x4b => 0x19,
        0x4c => 0xe6,
        0x4d => 0x85,
        0x4e => 0x4f,
        0x4f => 0xa8,
        0x50 => 0x68,
        0x51 => 0x6b,
        0x52 => 0x81,
        0x53 => 0xb2,
        0x54 => 0x71,
        0x55 => 0x64,
        0x56 => 0xda,
        0x57 => 0x8b,
        0x58 => 0xf8,
        0x59 => 0xeb,
        0x5a => 0x0f,
        0x5b => 0x4b,
        0x5c => 0x70,
        0x5d => 0x56,
        0x5e => 0x9d,
        0x5f => 0x35,
        0x60 => 0x1e,
        0x61 => 0x24,
        0x62 => 0x0e,
        0x63 => 0x5e,
        0x64 => 0x63,
        0x65 => 0x58,
        0x66 => 0xd1,
        0x67 => 0xa2,
        0x68 => 0x25,
        0x69 => 0x22,
        0x6a => 0x7c,
        0x6b => 0x3b,
        0x6c => 0x01,
        0x6d => 0x21,
        0x6e => 0x78,
        0x6f => 0x87,
        0x70 => 0xd4,
        0x71 => 0x00,
        0x72 => 0x46,
        0x73 => 0x57,
        0x74 => 0x9f,
        0x75 => 0xd3,
        0x76 => 0x27,
        0x77 => 0x52,
        0x78 => 0x4c,
        0x79 => 0x36,
        0x7a => 0x02,
        0x7b => 0xe7,
        0x7c => 0xa0,
        0x7d => 0xc4,
        0x7e => 0xc8,
        0x7f => 0x9e,
        0x80 => 0xea,
        0x81 => 0xbf,
        0x82 => 0x8a,
        0x83 => 0xd2,
        0x84 => 0x40,
        0x85 => 0xc7,
        0x86 => 0x38,
        0x87 => 0xb5,
        0x88 => 0xa3,
        0x89 => 0xf7,
        0x8a => 0xf2,
        0x8b => 0xce,
        0x8c => 0xf9,
        0x8d => 0x61,
        0x8e => 0x15,
        0x8f => 0xa1,
        0x90 => 0xe0,
        0x91 => 0xae,
        0x92 => 0x5d,
        0x93 => 0xa4,
        0x94 => 0x9b,
        0x95 => 0x34,
        0x96 => 0x1a,
        0x97 => 0x55,
        0x98 => 0xad,
        0x99 => 0x93,
        0x9a => 0x32,
        0x9b => 0x30,
        0x9c => 0xf5,
        0x9d => 0x8c,
        0x9e => 0xb1,
        0x9f => 0xe3,
        0xa0 => 0x1d,
        0xa1 => 0xf6,
        0xa2 => 0xe2,
        0xa3 => 0x2e,
        0xa4 => 0x82,
        0xa5 => 0x66,
        0xa6 => 0xca,
        0xa7 => 0x60,
        0xa8 => 0xc0,
        0xa9 => 0x29,
        0xaa => 0x23,
        0xab => 0xab,
        0xac => 0x0d,
        0xad => 0x53,
        0xae => 0x4e,
        0xaf => 0x6f,
        0xb0 => 0xd5,
        0xb1 => 0xdb,
        0xb2 => 0x37,
        0xb3 => 0x45,
        0xb4 => 0xde,
        0xb5 => 0xfd,
        0xb6 => 0x8e,
        0xb7 => 0x2f,
        0xb8 => 0x03,
        0xb9 => 0xff,
        0xba => 0x6a,
        0xbb => 0x72,
        0xbc => 0x6d,
        0xbd => 0x6c,
        0xbe => 0x5b,
        0xbf => 0x51,
        0xc0 => 0x8d,
        0xc1 => 0x1b,
        0xc2 => 0xaf,
        0xc3 => 0x92,
        0xc4 => 0xbb,
        0xc5 => 0xdd,
        0xc6 => 0xbc,
        0xc7 => 0x7f,
        0xc8 => 0x11,
        0xc9 => 0xd9,
        0xca => 0x5c,
        0xcb => 0x41,
        0xcc => 0x1f,
        0xcd => 0x10,
        0xce => 0x5a,
        0xcf => 0xd8,
        0xd0 => 0x0a,
        0xd1 => 0xc1,
        0xd2 => 0x31,
        0xd3 => 0x88,
        0xd4 => 0xa5,
        0xd5 => 0xcd,
        0xd6 => 0x7b,
        0xd7 => 0xbd,
        0xd8 => 0x2d,
        0xd9 => 0x74,
        0xda => 0xd0,
        0xdb => 0x12,
        0xdc => 0xb8,
        0xdd => 0xe5,
        0xde => 0xb4,
        0xdf => 0xb0,
        0xe0 => 0x89,
        0xe1 => 0x69,
        0xe2 => 0x97,
        0xe3 => 0x4a,
        0xe4 => 0x0c,
        0xe5 => 0x96,
        0xe6 => 0x77,
        0xe7 => 0x7e,
        0xe8 => 0x65,
        0xe9 => 0xb9,
        0xea => 0xf1,
        0xeb => 0x09,
        0xec => 0xc5,
        0xed => 0x6e,
        0xee => 0xc6,
        0xef => 0x84,
        0xf0 => 0x18,
        0xf1 => 0xf0,
        0xf2 => 0x7d,
        0xf3 => 0xec,
        0xf4 => 0x3a,
        0xf5 => 0xdc,
        0xf6 => 0x4d,
        0xf7 => 0x20,
        0xf8 => 0x79,
        0xf9 => 0xee,
        0xfa => 0x5f,
        0xfb => 0x3e,
        0xfc => 0xd7,
        0xfd => 0xcb,
        0xfe => 0x39,
        0xff => 0x48,
    }
}

/// The byte substitution applied to each byte of a word.
pub open spec fn tau(x: u32) -> u32 {
    ((sbox(((x >> 24) & 0xff) as u8) as u32) << 24) | ((sbox(((x >> 16) & 0xff) as u8) as u32)
        << 16) | ((sbox(((x >> 8) & 0xff) as u8) as u32) << 8) | (sbox((x & 0xff) as u8) as u32)
}

fn tau_e(x: u32) -> (r: u32)
    ensures
        r == tau(x),
{
    ((sbox_e(((x >> 24) & 0xff) as u8) as u32) << 24) | ((sbox_e(((x >> 16) & 0xff) as u8) as u32)
        << 16) | ((sbox_e(((x >> 8) & 0xff) as u8) as u32) << 8) | (sbox_e((x & 0xff) as u8) as u32)
}

/// The diffusion transform of the cipher rounds.
pub open spec fn lin(b: u32) -> u32 {
    b ^ rotl(b, 2) ^ rotl(b, 10) ^ rotl(b, 18) ^ rotl(b, 24)
}

/// The diffusion transform of the key schedule.
pub open spec fn lin_key(b: u32) -> u32 {
    b ^ rotl(b, 13) ^ rotl(b, 23)
}

pub open spec fn t_enc(x: u32) -> u32 {
    lin(tau(x))
}

pub open spec fn t_key(x: u32) -> u32 {
    lin_key(tau(x))
}

fn t_enc_e(x: u32) -> (r: u32)
    ensures
        r == t_enc(x),
{
    let b = tau_e(x);
    b ^ rotl_e(b, 2) ^ rotl_e(b, 10) ^ rotl_e(b, 18) ^ rotl_e(b, 24)
}

fn t_key_e(x: u32) -> (r: u32)
    ensures
        r == t_key(x),
{
    let b = tau_e(x);
    b ^ rotl_e(b, 13) ^ rotl_e(b, 23)
}

/// The fixed parameter the key is folded with.
pub open spec fn fk(j: int) -> u32 {
    if j == 0 {
        0xa3b1bac6u32
    } else if j == 1 {
        0x56aa3350u32
    } else if j == 2 {
        0x677d9197u32
    } else {
        0xb27022dcu32
    }
}

/// The round constants: byte `j` of word `i` is `7 (4 i + j) mod 256`.
pub open spec fn ck(i: int) -> u32 {
    ((((28 * i) % 256) as u32) << 24) | ((((28 * i + 7) % 256) as u32) << 16) | ((((28 * i + 14)
        % 256) as u32) << 8) | (((28 * i + 21) % 256) as u32)
}

fn ck_e(i: usize) -> (r: u32)
    requires
        i < 32,
    ensures
        r == ck(i as int),
{
    let a0: u32 = ((28 * i) % 256) as u32;
    let a1: u32 = ((28 * i + 7) % 256) as u32;
    let a2: u32 = ((28 * i + 14) % 256) as u32;
    let a3: u32 = ((28 * i + 21) % 256) as u32;
    (a0 << 24) | (a1 << 16) | (a2 << 8) | a3
}

/// The four big-endian words of a 16-byte block.
pub open spec fn words4(s: Seq<u8>) -> Seq<u32> {
    Seq::new(4, |i: int| word_at(s, 4 * i))
}

/// The 16 big-endian bytes of four words.
pub open spec fn wbytes(w: Seq<u32>) -> Seq<u8> {
    Seq::new(16, |i: int| ((w[i / 4] >> ((24 - 8 * (i % 4)) as u32)) & 0xff) as u8)
}

/// The key-schedule state after `i` rounds: a window of four words.
pub open spec fn key_state(kw: Seq<u32>, i: int) -> Seq<u32>
    decreases i,
{
    if i <= 0 {
        Seq::new(4, |j: int| kw[j] ^ fk(j))
    } else {
        let s = key_state(kw, i - 1);
        seq![s[1], s[2], s[3], s[0] ^ t_key(s[1] ^ s[2] ^ s[3] ^ ck(i - 1))]
    }
}

/// The round keys derived from a 16-byte key.
pub open spec fn rks_of_key(kb: Seq<u8>) -> Seq<u32> {
    Seq::new(32, |i: int| key_state(words4(kb), i + 1)[3])
}

/// The cipher state after `i` rounds: a window of four words.
pub open spec fn sm4_state(rks: Seq<u32>, x: Seq<u32>, i: int) -> Seq<u32>
    decreases i,
{
    if i <= 0 {
        x
    } else {
        let s = sm4_state(rks, x, i - 1);
        seq![s[1], s[2], s[3], s[0] ^ t_enc(s[1] ^ s[2] ^ s[3] ^ rks[i - 1])]
    }
}

pub open spec fn swap4(s: Seq<u32>) -> Seq<u32> {
    seq![s[3], s[2], s[1], s[0]]
}

pub open spec fn rev32(rks: Seq<u32>) -> Seq<u32> {
    Seq::new(32, |i: int| rks[31 - i])
}

/// Encryption and decryption of one block, over words.
pub open spec fn enc_words(rks: Seq<u32>, x: Seq<u32>) -> Seq<u32> {
    swap4(sm4_state(rks, x, 32))
}

pub open spec fn dec_words(rks: Seq<u32>, x: Seq<u32>) -> Seq<u32> {
    swap4(sm4_state(rev32(rks), x, 32))
}

/// Encryption and decryption of one 16-byte block.
pub open spec fn sm4_enc_block(rks: Seq<u32>, b: Seq<u8>) -> Seq<u8> {
    wbytes(enc_words(rks, words4(b)))
}

pub open spec fn sm4_dec_block(rks: Seq<u32>, b: Seq<u8>) -> Seq<u8> {
    wbytes(dec_words(rks, words4(b)))
}

/// Decryption with the reversed keys walks the encryption states backwards.
proof fn lemma_sm4_unwind(rks: Seq<u32>, x: Seq<u32>, j: int)
    requires
        rks.len() == 32,
        x.len() == 4,
        0 <= j <= 32,
    ensures
        sm4_state(rev32(rks), swap4(sm4_state(rks, x, 32)), j) =~= swap4(sm4_state(rks, x, 32 - j)),
    decreases j,
{
    if j == 0 {
        assert(sm4_state(rev32(rks), swap4(sm4_state(rks, x, 32)), 0) =~= swap4(
            sm4_state(rks, x, 32),
        ));
    } else {
        lemma_sm4_unwind(rks, x, j - 1);
        let enc32 = swap4(sm4_state(rks, x, 32));
        let u = sm4_state(rev32(rks), enc32, j - 1);
        let vv = sm4_state(rks, x, 32 - j);
        let a = vv[0];
        let b = vv[1];
        let c = vv[2];
        let d = vv[3];
        let rk = rks[32 - j];
        assert(sm4_state(rks, x, 33 - j) =~= seq![b, c, d, a ^ t_enc(b ^ c ^ d ^ rk)]);
        assert(u =~= swap4(sm4_state(rks, x, 33 - j)));
        assert(u[0] == a ^ t_enc(b ^ c ^ d ^ rk));
        assert(u[1] == d && u[2] == c && u[3] == b);
        assert(rev32(rks)[j - 1] == rk);
        let nxt = sm4_state(rev32(rks), enc32, j);
        assert(nxt =~= seq![u[1], u[2], u[3], u[0] ^ t_enc(u[1] ^ u[2] ^ u[3] ^ rk)]);
        assert(d ^ c ^ b ^ rk == b ^ c ^ d ^ rk) by (bit_vector);
        let t = t_enc(b ^ c ^ d ^ rk);
        assert((a ^ t) ^ t == a) by (bit_vector);
        assert(nxt =~= seq![d, c, b, a]);
        assert(nxt =~= swap4(sm4_state(rks, x, 32 - j)));
    }
}

/// Word-level inversion: decrypting an encrypted block gives the block back.
pub proof fn lemma_sm4_words_inverse(rks: Seq<u32>, x: Seq<u32>)
    requires
        rks.len() == 32,
        x.len() == 4,
    ensures
        dec_words(rks, enc_words(rks, x)) =~= x,
{
    lemma_sm4_unwind(rks, x, 32);
    assert(sm4_state(rks, x, 0) =~= x);
}

/// The byte forms convert back and forth.
proof fn lemma_words_bytes_id(w: Seq<u32>)
    requires
        w.len() == 4,
    ensures
        words4(wbytes(w)) =~= w,
{
    assert forall|i: int| 0 <= i < 4 implies words4(wbytes(w))[i] == w[i] by {
        let x = w[i];
        let b0 = ((x >> 24) & 0xff) as u8;
        let b1 = ((x >> 16) & 0xff) as u8;
        let b2 = ((x >> 8) & 0xff) as u8;
        let b3 = ((x >> 0) & 0xff) as u8;
        assert(x >> 0 == x) by (bit_vector);
        assert(wbytes(w)[4 * i] == b0);
        assert(wbytes(w)[4 * i + 1] == b1);
        assert(wbytes(w)[4 * i + 2] == b2);
        assert(wbytes(w)[4 * i + 3] == (((x >> 0) & 0xff) as u8));
        assert((((x >> 0) & 0xff) as u8) == ((x & 0xff) as u8)) by (bit_vector);
        assert((((((x >> 24) & 0xff) as u8) as u32) << 24) | (((((x >> 16) & 0xff) as u8) as u32)
            << 16) | (((((x >> 8) & 0xff) as u8) as u32) << 8) | (((x & 0xff) as u8) as u32)
            == x) by (bit_vector);
    }
}

proof fn lemma_bytes_words_id(b: Seq<u8>)
    requires
        b.len() == 16,
    ensures
        wbytes(words4(b)) =~= b,
{
    assert forall|i: int| 0 <= i < 16 implies wbytes(words4(b))[i] == b[i] by {
        let k = i / 4;
        let r = i % 4;
        let x = words4(b)[k];
        let c0 = b[4 * k];
        let c1 = b[4 * k + 1];
        let c2 = b[4 * k + 2];
        let c3 = b[4 * k + 3];
        assert(x == (((c0 as u32) << 24) | ((c1 as u32) << 16) | ((c2 as u32) << 8) | (c3 as u32)));
        assert(wbytes(words4(b))[i] == ((x >> ((24 - 8 * r) as u32)) & 0xff) as u8);
        if r == 0 {
            assert(((((c0 as u32) << 24) | ((c1 as u32) << 16) | ((c2 as u32) << 8) | (c3 as u32))
                >> 24 & 0xff) as u8 == c0) by (bit_vector);
        } else if r == 1 {
            assert(((((c0 as u32) << 24) | ((c1 as u32) << 16) | ((c2 as u32) << 8) | (c3 as u32))
                >> 16 & 0xff) as u8 == c1) by (bit_vector);
        } else if r == 2 {
            assert(((((c0 as u32) << 24) | ((c1 as u32) << 16) | ((c2 as u32) << 8) | (c3 as u32))
                >> 8 & 0xff) as u8 == c2) by (bit_vector);
        } else {
            assert(((((c0 as u32) << 24) | ((c1 as u32) << 16) | ((c2 as u32) << 8) | (c3 as u32))
                >> 0 & 0xff) as u8 == c3) by (bit_vector);
        }
    }
}

/// One block encrypts and decrypts back to itself.
pub proof fn lemma_sm4_block_roundtrip(rks: Seq<u32>, b: Seq<u8>)
    requires
        rks.len() == 32,
        b.len() == 16,
    ensures
        sm4_dec_block(rks, sm4_enc_block(rks, b)) =~= b,
{
    lemma_words_bytes_id(enc_words(rks, words4(b)));
    lemma_sm4_words_inverse(rks, words4(b));
    lemma_bytes_words_id(b);
}


/// Bytewise XOR of equal-length strings.
pub open spec fn xorb(a: Seq<u8>, b: Seq<u8>) -> Seq<u8> {
    Seq::new(a.len(), |i: int| a[i] ^ b[i])
}

pub proof fn lemma_xorb_cancel(a: Seq<u8>, b: Seq<u8>)
    requires
        a.len() == b.len(),
    ensures
        xorb(xorb(a, b), b) =~= a,
{
    assert forall|i: int| 0 <= i < a.len() implies xorb(xorb(a, b), b)[i] == a[i] by {
        let x = a[i];
        let y = b[i];
        assert((x ^ y) ^ y == x) by (bit_vector);
    }
}

/// Block padding: `n` bytes of value `n`, where `n` completes the last block.
pub open spec fn pad16(m: Seq<u8>) -> Seq<u8> {
    let n = 16 - (m.len() % 16);
    m + Seq::new(n as nat, |i: int| n as u8)
}

/// Strip and check the padding trailer.
pub open spec fn unpad16(m: Seq<u8>) -> Option<Seq<u8>> {
    if m.len() == 0 || m.len() % 16 != 0 {
        None
    } else {
        let n = m.last() as int;
        if 1 <= n <= 16 && (forall|i: int| m.len() - n <= i < m.len() ==> m[i] == m.last()) {
            Some(m.take(m.len() - n))
        } else {
            None
        }
    }
}

/// Padding then unpadding gives the message back, whatever its length.
pub proof fn lemma_unpad_pad(m: Seq<u8>)
    ensures
        unpad16(pad16(m)) == Some(m),
{
    let n = 16 - (m.len() % 16);
    let p = pad16(m);
    assert(p.len() == m.len() + n);
    assert(p.len() % 16 == 0) by {
        assert(m.len() % 16 < 16);
        assert(m.len() == 16 * (m.len() / 16) + m.len() % 16);
    }
    assert(p.last() == n as u8);
    assert(forall|i: int| p.len() - n <= i < p.len() ==> p[i] == p.last());
    assert(p.take(p.len() - n) =~= m);
}

/// Electronic-codebook mode over a block-aligned string.
pub open spec fn ecb_enc(rks: Seq<u32>, m: Seq<u8>) -> Seq<u8>
    decreases m.len(),
{
    if m.len() < 16 {
        Seq::empty()
    } else {
        sm4_enc_block(rks, m.take(16)) + ecb_enc(rks, m.skip(16))
    }
}

pub open spec fn ecb_dec(rks: Seq<u32>, c: Seq<u8>) -> Seq<u8>
    decreases c.len(),
{
    if c.len() < 16 {
        Seq::empty()
    } else {
        sm4_dec_block(rks, c.take(16)) + ecb_dec(rks, c.skip(16))
    }
}

/// Cipher-block chaining; `prev` is the value each plaintext block is XORed with.
pub open spec fn cbc_enc(rks: Seq<u32>, prev: Seq<u8>, m: Seq<u8>) -> Seq<u8>
    decreases m.len(),
{
    if m.len() < 16 {
        Seq::empty()
    } else {
        let c = sm4_enc_block(rks, xorb(m.take(16), prev));
        c + cbc_enc(rks, c, m.skip(16))
    }
}

pub open spec fn cbc_dec(rks: Seq<u32>, prev: Seq<u8>, c: Seq<u8>) -> Seq<u8>
    decreases c.len(),
{
    if c.len() < 16 {
        Seq::empty()
    } else {
        xorb(sm4_dec_block(rks, c.take(16)), prev) + cbc_dec(rks, c.take(16), c.skip(16))
    }
}

/// Codebook decryption inverts codebook encryption on aligned strings.
pub proof fn lemma_sm4_ecb_roundtrip(rks: Seq<u32>, m: Seq<u8>)
    requires
        rks.len() == 32,
        m.len() % 16 == 0,
    ensures
        ecb_dec(rks, ecb_enc(rks, m)) =~= m,
    decreases m.len(),
{
    if m.len() == 0 {
    } else {
        assert(m.len() >= 16) by {
            assert(m.len() % 16 == 0 && m.len() > 0);
        }
        let e1 = sm4_enc_block(rks, m.take(16));
        let rest = ecb_enc(rks, m.skip(16));
        assert(e1.len() == 16);
        assert((e1 + rest).take(16) =~= e1);
        assert((e1 + rest).skip(16) =~= rest);
        lemma_sm4_block_roundtrip(rks, m.take(16));
        assert(m.skip(16).len() % 16 == 0) by {
            assert(m.len() == m.skip(16).len() + 16);
        }
        lemma_sm4_ecb_roundtrip(rks, m.skip(16));
        assert(ecb_dec(rks, ecb_enc(rks, m)) =~= m.take(16) + m.skip(16));
        assert(m.take(16) + m.skip(16) =~= m);
    }
}

/// Chained decryption inverts chained encryption, for any chaining value.
pub proof fn lemma_sm4_cbc_roundtrip(rks: Seq<u32>, prev: Seq<u8>, m: Seq<u8>)
    requires
        rks.len() == 32,
        prev.len() == 16,
        m.len() % 16 == 0,
    ensures
        cbc_dec(rks, prev, cbc_enc(rks, prev, m)) =~= m,
    decreases m.len(),
{
    if m.len() == 0 {
    } else {
        assert(m.len() >= 16) by {
            assert(m.len() % 16 == 0 && m.len() > 0);
        }
        let xb = xorb(m.take(16), prev);
        let c1 = sm4_enc_block(rks, xb);
        let rest = cbc_enc(rks, c1, m.skip(16));
        assert(c1.len() == 16);
        assert((c1 + rest).take(16) =~= c1);
        assert((c1 + rest).skip(16) =~= rest);
        lemma_sm4_block_roundtrip(rks, xb);
        assert(sm4_dec_block(rks, c1) =~= xb);
        lemma_xorb_cancel(m.take(16), prev);
        assert(xorb(sm4_dec_block(rks, c1), prev) =~= m.take(16));
        assert(m.skip(16).len() % 16 == 0) by {
            assert(m.len() == m.skip(16).len() + 16);
        }
        lemma_sm4_cbc_roundtrip(rks, c1, m.skip(16));
        assert(cbc_dec(rks, prev, cbc_enc(rks, prev, m)) =~= m.take(16) + m.skip(16));
        assert(m.take(16) + m.skip(16) =~= m);
    }
}

/// In codebook mode, equal plaintext blocks give equal ciphertext blocks.
pub proof fn lemma_ecb_equal_blocks(rks: Seq<u32>, b1: Seq<u8>, b2: Seq<u8>)
    requires
        rks.len() == 32,
        b1.len() == 16,
        b2.len() == 16,
    ensures
        ecb_enc(rks, b1 + b2) =~= sm4_enc_block(rks, b1) + sm4_enc_block(rks, b2),
        b1 == b2 ==> ecb_enc(rks, b1 + b2).take(16) =~= ecb_enc(rks, b1 + b2).skip(16),
{
    reveal_with_fuel(ecb_enc, 4);
    let m = b1 + b2;
    assert(m.take(16) =~= b1);
    assert(m.skip(16) =~= b2);
    assert(m.skip(16).take(16) =~= b2);
    assert(m.skip(16).skip(16) =~= Seq::<u8>::empty());
    assert(ecb_enc(rks, m) =~= sm4_enc_block(rks, b1) + (sm4_enc_block(rks, b2) + Seq::<
        u8,
    >::empty()));
    assert(sm4_enc_block(rks, b2) + Seq::<u8>::empty() =~= sm4_enc_block(rks, b2));
    if b1 == b2 {
        assert(ecb_enc(rks, m).take(16) =~= sm4_enc_block(rks, b1));
        assert(ecb_enc(rks, m).skip(16) =~= sm4_enc_block(rks, b2));
    }
}

/// Expand a 16-byte key into the 32 round keys.
pub fn sm4_key_schedule(key: &[u8]) -> (r: Result<Vec<u32>, SmError>)
    ensures
        match r {
            Ok(v) => key@.len() == 16 && v@.len() == 32 && v@ =~= rks_of_key(key@),
            Err(e) => e == SmError::InvalidKeyLength && key@.len() != 16,
        },
{
    if key.len() != 16 {
        return Err(SmError::InvalidKeyLength);
    }
    let ghost kw: Seq<u32> = words4(key@);
    let w0: u32 = ((key[0] as u32) << 24) | ((key[1] as u32) << 16) | ((key[2] as u32) << 8) | (
    key[3] as u32);
    let w1: u32 = ((key[4] as u32) << 24) | ((key[5] as u32) << 16) | ((key[6] as u32) << 8) | (
    key[7] as u32);
    let w2: u32 = ((key[8] as u32) << 24) | ((key[9] as u32) << 16) | ((key[10] as u32) << 8) | (
    key[11] as u32);
    let w3: u32 = ((key[12] as u32) << 24) | ((key[13] as u32) << 16) | ((key[14] as u32) << 8) | (
    key[15] as u32);
    let mut k0: u32 = w0 ^ 0xa3b1bac6;
    let mut k1: u32 = w1 ^ 0x56aa3350;
    let mut k2: u32 = w2 ^ 0x677d9197;
    let mut k3: u32 = w3 ^ 0xb27022dc;
    proof {
        assert(kw[0] == w0 && kw[1] == w1 && kw[2] == w2 && kw[3] == w3);
        assert(seq![k0, k1, k2, k3] =~= key_state(kw, 0));
    }
    let mut rkv: Vec<u32> = Vec::new();
    let mut i: usize = 0;
    while i < 32
        invariant
            i <= 32,
            kw == words4(key@),
            seq![k0, k1, k2, k3] =~= key_state(kw, i as int),
            rkv@.len() == i,
            forall|t: int| 0 <= t < i ==> rkv@[t] == key_state(kw, t + 1)[3],
        decreases 32 - i,
    {
        let tv = k1 ^ k2 ^ k3 ^ ck_e(i);
        let nk = k0 ^ t_key_e(tv);
        proof {
            assert(key_state(kw, i + 1) =~= seq![k1, k2, k3, nk]);
        }
        rkv.push(nk);
        k0 = k1;
        k1 = k2;
        k2 = k3;
        k3 = nk;
        i = i + 1;
    }
    proof {
        assert(rkv@ =~= rks_of_key(key@));
    }
    Ok(rkv)
}

/// One block through the rounds, encrypting.
fn enc_words_e(rks: &Vec<u32>, w: [u32; 4]) -> (r: [u32; 4])
    requires
        rks@.len() == 32,
    ensures
        r@ =~= enc_words(rks@, w@),
{
    let mut k0 = w[0];
    let mut k1 = w[1];
    let mut k2 = w[2];
    let mut k3 = w[3];
    proof {
        assert(seq![k0, k1, k2, k3] =~= sm4_state(rks@, w@, 0));
    }
    let mut i: usize = 0;
    while i < 32
        invariant
            i <= 32,
            rks@.len() == 32,
            seq![k0, k1, k2, k3] =~= sm4_state(rks@, w@, i as int),
        decreases 32 - i,
    {
        let nk = k0 ^ t_enc_e(k1 ^ k2 ^ k3 ^ rks[i]);
        proof {
            assert(sm4_state(rks@, w@, i + 1) =~= seq![k1, k2, k3, nk]);
        }
        k0 = k1;
        k1 = k2;
        k2 = k3;
        k3 = nk;
        i = i + 1;
    }
    let out = [k3, k2, k1, k0];
    proof {
        assert(out@ =~= swap4(sm4_state(rks@, w@, 32)));
    }
    out
}

/// One block through the rounds, decrypting: the keys walked backwards.
fn dec_words_e(rks: &Vec<u32>, w: [u32; 4]) -> (r: [u32; 4])
    requires
        rks@.len() == 32,
    ensures
        r@ =~= dec_words(rks@, w@),
{
    let mut k0 = w[0];
    let mut k1 = w[1];
    let mut k2 = w[2];
    let mut k3 = w[3];
    proof {
        assert(seq![k0, k1, k2, k3] =~= sm4_state(rev32(rks@), w@, 0));
    }
    let mut i: usize = 0;
    while i < 32
        invariant
            i <= 32,
            rks@.len() == 32,
            seq![k0, k1, k2, k3] =~= sm4_state(rev32(rks@), w@, i as int),
        decreases 32 - i,
    {
        let nk = k0 ^ t_enc_e(k1 ^ k2 ^ k3 ^ rks[31 - i]);
        proof {
            assert(rev32(rks@)[i as int] == rks@[31 - i]);
            assert(sm4_state(rev32(rks@), w@, i + 1) =~= seq![k1, k2, k3, nk]);
        }
        k0 = k1;
        k1 = k2;
        k2 = k3;
        k3 = nk;
        i = i + 1;
    }
    let out = [k3, k2, k1, k0];
    proof {
        assert(out@ =~= swap4(sm4_state(rev32(rks@), w@, 32)));
    }
    out
}

/// Load the four words of the 16 bytes at `off`.
fn load_block(d: &[u8], off: usize) -> (r: [u32; 4])
    requires
        off + 16 <= d@.len(),
    ensures
        r@ =~= words4(d@.subrange(off as int, off + 16)),
{
    let w0: u32 = ((d[off] as u32) << 24) | ((d[off + 1] as u32) << 16) | ((d[off + 2] as u32)
        << 8) | (d[off + 3] as u32);
    let w1: u32 = ((d[off + 4] as u32) << 24) | ((d[off + 5] as u32) << 16) | ((d[off + 6] as u32)
        << 8) | (d[off + 7] as u32);
    let w2: u32 = ((d[off + 8] as u32) << 24) | ((d[off + 9] as u32) << 16) | ((d[off + 10] as u32)
        << 8) | (d[off + 11] as u32);
    let w3: u32 = ((d[off + 12] as u32) << 24) | ((d[off + 13] as u32) << 16) | ((d[off
        + 14] as u32) << 8) | (d[off + 15] as u32);
    let out = [w0, w1, w2, w3];
    proof {
        let sub = d@.subrange(off as int, off + 16);
        assert(sub[0] == d@[off as int] && sub[1] == d@[off + 1] && sub[2] == d@[off + 2] && sub[3]
            == d@[off + 3]);
        assert(out@ =~= words4(sub));
    }
    out
}

/// Append the 16 bytes of four words.
fn push_block(out: &mut Vec<u8>, w: &[u32; 4])
    ensures
        final(out)@ =~= old(out)@ + wbytes(w@),
{
    let mut t: usize = 0;
    while t < 16
        invariant
            t <= 16,
            out@ =~= old(out)@ + wbytes(w@).take(t as int),
        decreases 16 - t,
    {
        let b: u8 = ((w[t / 4] >> ((24 - 8 * (t % 4)) as u32)) & 0xff) as u8;
        out.push(b);
        proof {
            assert(out@ =~= old(out)@ + wbytes(w@).take(t + 1));
        }
        t = t + 1;
    }
    proof {
        assert(wbytes(w@).take(16) =~= wbytes(w@));
    }
}


/// Pad a message out to whole blocks.
fn pad16_e(data: &[u8]) -> (r: Vec<u8>)
    ensures
        r@ =~= pad16(data@),
        r@.len() % 16 == 0,
        r@.len() > 0,
{
    let len = data.len();
    let mut padded: Vec<u8> = Vec::new();
    let mut i: usize = 0;
    while i < len
        invariant
            i <= len,
            len == data@.len(),
            padded@ == data@.take(i as int),
        decreases len - i,
    {
        padded.push(data[i]);
        proof {
            assert(padded@ =~= data@.take(i + 1));
        }
        i = i + 1;
    }
    proof {
        assert(data@.take(len as int) =~= data@);
    }
    let n: usize = 16 - (len % 16);
    let mut t: usize = 0;
    while t < n
        invariant
            t <= n,
            len == data@.len(),
            n == 16 - (len % 16),
            padded@ == data@ + Seq::new(t as nat, |i: int| n as u8),
        decreases n - t,
    {
        padded.push(n as u8);
        proof {
            assert(padded@ =~= data@ + Seq::new((t + 1) as nat, |i: int| n as u8));
        }
        t = t + 1;
    }
    proof {
        assert(padded@ =~= pad16(data@));
        assert(len == 16 * (len / 16) + len % 16);
        assert(padded@.len() == len + n);
    }
    padded
}

/// Encrypt whole blocks in codebook mode.
fn ecb_enc_e(rks: &Vec<u32>, padded: &Vec<u8>) -> (r: Vec<u8>)
    requires
        rks@.len() == 32,
        padded@.len() % 16 == 0,
    ensures
        r@ =~= ecb_enc(rks@, padded@),
{
    let mut out: Vec<u8> = Vec::new();
    let plen: usize = padded.len();
    let total: usize = plen / 16;
    let mut i: usize = 0;
    proof {
        assert(padded@.skip(0) =~= padded@);
        assert(Seq::<u8>::empty() + ecb_enc(rks@, padded@) =~= ecb_enc(rks@, padded@));
    }
    while i < total
        invariant
            i <= total,
            rks@.len() == 32,
            padded@.len() % 16 == 0,
            plen == padded@.len(),
            total == padded@.len() / 16,
            ecb_enc(rks@, padded@) =~= out@ + ecb_enc(rks@, padded@.skip(16 * i as int)),
        decreases total - i,
    {
        proof {
            assert(padded@.len() == 16 * (padded@.len() / 16));
            assert(16 * total == padded@.len());
            assert(16 * (i + 1) <= 16 * total);
        }
        let off: usize = 16 * i;
        let wb = load_block(padded.as_slice(), off);
        let cw = enc_words_e(rks, wb);
        let ghost oldout = out@;
        push_block(&mut out, &cw);
        proof {
            let sk = padded@.skip(16 * i as int);
            assert(sk.take(16) =~= padded@.subrange(off as int, off + 16));
            assert(sk.skip(16) =~= padded@.skip(16 * (i + 1) as int));
            assert(sk.len() >= 16);
            assert(wbytes(cw@) == sm4_enc_block(rks@, padded@.subrange(off as int, off + 16)));
            assert(ecb_enc(rks@, sk) =~= sm4_enc_block(rks@, sk.take(16)) + ecb_enc(
                rks@,
                sk.skip(16),
            ));
            assert(ecb_enc(rks@, padded@) =~= out@ + ecb_enc(
                rks@,
                padded@.skip(16 * (i + 1) as int),
            ));
        }
        i = i + 1;
    }
    proof {
        assert(padded@.skip(16 * total as int) =~= Seq::<u8>::empty());
        assert(ecb_enc(rks@, Seq::<u8>::empty()) =~= Seq::<u8>::empty());
        assert(out@ + Seq::<u8>::empty() =~= out@);
    }
    out
}

/// Decrypt whole blocks in codebook mode.
fn ecb_dec_e(rks: &Vec<u32>, data: &[u8]) -> (r: Vec<u8>)
    requires
        rks@.len() == 32,
        data@.len() % 16 == 0,
    ensures
        r@ =~= ecb_dec(rks@, data@),
        r@.len() == data@.len(),
{
    let mut out: Vec<u8> = Vec::new();
    let plen: usize = data.len();
    let total: usize = plen / 16;
    let mut i: usize = 0;
    proof {
        assert(data@.skip(0) =~= data@);
        assert(Seq::<u8>::empty() + ecb_dec(rks@, data@) =~= ecb_dec(rks@, data@));
    }
    while i < total
        invariant
            i <= total,
            rks@.len() == 32,
            data@.len() % 16 == 0,
            plen == data@.len(),
            total == data@.len() / 16,
            out@.len() == 16 * i,
            ecb_dec(rks@, data@) =~= out@ + ecb_dec(rks@, data@.skip(16 * i as int)),
        decreases total - i,
    {
        proof {
            assert(data@.len() == 16 * (data@.len() / 16));
            assert(16 * total == data@.len());
            assert(16 * (i + 1) <= 16 * total);
        }
        let off: usize = 16 * i;
        let wb = load_block(data, off);
        let cw = dec_words_e(rks, wb);
        push_block(&mut out, &cw);
        proof {
            let sk = data@.skip(16 * i as int);
            assert(sk.take(16) =~= data@.subrange(off as int, off + 16));
            assert(sk.skip(16) =~= data@.skip(16 * (i + 1) as int));
            assert(sk.len() >= 16);
            assert(wbytes(cw@) == sm4_dec_block(rks@, data@.subrange(off as int, off + 16)));
            assert(ecb_dec(rks@, sk) =~= sm4_dec_block(rks@, sk.take(16)) + ecb_dec(
                rks@,
                sk.skip(16),
            ));
            assert(ecb_dec(rks@, data@) =~= out@ + ecb_dec(rks@, data@.skip(16 * (i + 1) as int)));
        }
        i = i + 1;
    }
    proof {
        assert(data@.skip(16 * total as int) =~= Seq::<u8>::empty());
        assert(ecb_dec(rks@, Seq::<u8>::empty()) =~= Seq::<u8>::empty());
        assert(out@ + Seq::<u8>::empty() =~= out@);
        assert(16 * total == data@.len());
    }
    out
}

/// Strip the padding trailer, exactly as the model demands it.
fn unpad16_e(data: &Vec<u8>) -> (r: Result<Vec<u8>, SmError>)
    requires
        data@.len() % 16 == 0,
        data@.len() > 0,
    ensures
        match r {
            Ok(m) => unpad16(data@) == Some(m@),
            Err(e) => e == SmError::InvalidPadding && unpad16(data@) is None,
        },
{
    let len = data.len();
    let n: u8 = data[len - 1];
    if n < 1 || n > 16 {
        return Err(SmError::InvalidPadding);
    }
    let nn: usize = n as usize;
    let mut i: usize = len - nn;
    while i < len
        invariant
            len == data@.len(),
            len >= nn,
            nn == n,
            n == data@.last(),
            1 <= n <= 16,
            len - nn <= i <= len,
            forall|t: int| len - nn <= t < i ==> data@[t] == data@.last(),
        decreases len - i,
    {
        if data[i] != n {
            return Err(SmError::InvalidPadding);
        }
        i = i + 1;
    }
    let keep: usize = len - nn;
    let mut out: Vec<u8> = Vec::new();
    let mut t: usize = 0;
    while t < keep
        invariant
            t <= keep,
            keep <= data@.len(),
            out@ == data@.take(t as int),
        decreases keep - t,
    {
        out.push(data[t]);
        proof {
            assert(out@ =~= data@.take(t + 1));
        }
        t = t + 1;
    }
    proof {
        assert(unpad16(data@) == Some(data@.take(len - nn as int)));
    }
    Ok(out)
}


/// Encrypt whole blocks in chaining mode.
fn cbc_enc_e(rks: &Vec<u32>, iv: &[u8], padded: &Vec<u8>) -> (r: Vec<u8>)
    requires
        rks@.len() == 32,
        iv@.len() == 16,
        padded@.len() % 16 == 0,
    ensures
        r@ =~= cbc_enc(rks@, iv@, padded@),
{
    let mut prev: Vec<u8> = Vec::new();
    let mut t: usize = 0;
    while t < 16
        invariant
            t <= 16,
            iv@.len() == 16,
            prev@ == iv@.take(t as int),
        decreases 16 - t,
    {
        prev.push(iv[t]);
        proof {
            assert(prev@ =~= iv@.take(t + 1));
        }
        t = t + 1;
    }
    proof {
        assert(iv@.take(16) =~= iv@);
    }
    let mut out: Vec<u8> = Vec::new();
    let plen: usize = padded.len();
    let total: usize = plen / 16;
    let mut i: usize = 0;
    proof {
        assert(padded@.skip(0) =~= padded@);
        assert(Seq::<u8>::empty() + cbc_enc(rks@, prev@, padded@) =~= cbc_enc(
            rks@,
            prev@,
            padded@,
        ));
    }
    while i < total
        invariant
            i <= total,
            rks@.len() == 32,
            plen == padded@.len(),
            padded@.len() % 16 == 0,
            total == padded@.len() / 16,
            prev@.len() == 16,
            cbc_enc(rks@, iv@, padded@) =~= out@ + cbc_enc(
                rks@,
                prev@,
                padded@.skip(16 * i as int),
            ),
        decreases total - i,
    {
        proof {
            assert(padded@.len() == 16 * (padded@.len() / 16));
            assert(16 * total == padded@.len());
            assert(16 * (i + 1) <= 16 * total);
        }
        let off: usize = 16 * i;
        let mut xb: Vec<u8> = Vec::new();
        let mut t2: usize = 0;
        while t2 < 16
            invariant
                t2 <= 16,
                plen == padded@.len(),
                off + 16 <= padded@.len(),
                prev@.len() == 16,
                xb@ == xorb(padded@.subrange(off as int, off + 16), prev@).take(t2 as int),
            decreases 16 - t2,
        {
            let b: u8 = padded[off + t2] ^ prev[t2];
            xb.push(b);
            proof {
                assert(xb@ =~= xorb(padded@.subrange(off as int, off + 16), prev@).take(t2 + 1));
            }
            t2 = t2 + 1;
        }
        proof {
            let full = xorb(padded@.subrange(off as int, off + 16), prev@);
            assert(full.take(16) =~= full);
        }
        let wb = load_block(xb.as_slice(), 0);
        let cw = enc_words_e(rks, wb);
        let mut cb: Vec<u8> = Vec::new();
        push_block(&mut cb, &cw);
        let mut t3: usize = 0;
        let mut out2: Vec<u8> = out;
        while t3 < 16
            invariant
                t3 <= 16,
                cb@.len() == 16,
                out2@ == out@ + cb@.take(t3 as int),
            decreases 16 - t3,
        {
            out2.push(cb[t3]);
            proof {
                assert(out2@ =~= out@ + cb@.take(t3 + 1));
            }
            t3 = t3 + 1;
        }
        proof {
            let sk = padded@.skip(16 * i as int);
            assert(sk.take(16) =~= padded@.subrange(off as int, off + 16));
            assert(sk.skip(16) =~= padded@.skip(16 * (i + 1) as int));
            assert(sk.len() >= 16);
            assert(xb@.subrange(0, 16) =~= xb@);
            assert(cb@ == sm4_enc_block(rks@, xorb(sk.take(16), prev@)));
            assert(cb@.take(16) =~= cb@);
            assert(cbc_enc(rks@, prev@, sk) =~= cb@ + cbc_enc(rks@, cb@, sk.skip(16)));
            assert(cbc_enc(rks@, iv@, padded@) =~= out2@ + cbc_enc(
                rks@,
                cb@,
                padded@.skip(16 * (i + 1) as int),
            ));
        }
        out = out2;
        prev = cb;
        i = i + 1;
    }
    proof {
        assert(padded@.skip(16 * total as int) =~= Seq::<u8>::empty());
        assert(cbc_enc(rks@, prev@, Seq::<u8>::empty()) =~= Seq::<u8>::empty());
        assert(out@ + Seq::<u8>::empty() =~= out@);
    }
    out
}

/// Decrypt whole blocks in chaining mode.
fn cbc_dec_e(rks: &Vec<u32>, iv: &[u8], data: &[u8]) -> (r: Vec<u8>)
    requires
        rks@.len() == 32,
        iv@.len() == 16,
        data@.len() % 16 == 0,
    ensures
        r@ =~= cbc_dec(rks@, iv@, data@),
        r@.len() == data@.len(),
{
    let mut prev: Vec<u8> = Vec::new();
    let mut t: usize = 0;
    while t < 16
        invariant
            t <= 16,
            iv@.len() == 16,
            prev@ == iv@.take(t as int),
        decreases 16 - t,
    {
        prev.push(iv[t]);
        proof {
            assert(prev@ =~= iv@.take(t + 1));
        }
        t = t + 1;
    }
    proof {
        assert(iv@.take(16) =~= iv@);
    }
    let mut out: Vec<u8> = Vec::new();
    let plen: usize = data.len();
    let total: usize = plen / 16;
    let mut i: usize = 0;
    proof {
        assert(data@.skip(0) =~= data@);
        assert(Seq::<u8>::empty() + cbc_dec(rks@, prev@, data@) =~= cbc_dec(rks@, prev@, data@));
    }
    while i < total
        invariant
            i <= total,
            rks@.len() == 32,
            plen == data@.len(),
            data@.len() % 16 == 0,
            total == data@.len() / 16,
            prev@.len() == 16,
            out@.len() == 16 * i,
            cbc_dec(rks@, iv@, data@) =~= out@ + cbc_dec(rks@, prev@, data@.skip(16 * i as int)),
        decreases total - i,
    {
        proof {
            assert(data@.len() == 16 * (data@.len() / 16));
            assert(16 * total == data@.len());
            assert(16 * (i + 1) <= 16 * total);
        }
        let off: usize = 16 * i;
        let wb = load_block(data, off);
        let dw = dec_words_e(rks, wb);
        let mut db: Vec<u8> = Vec::new();
        push_block(&mut db, &dw);
        let mut out2: Vec<u8> = out;
        let mut t3: usize = 0;
        while t3 < 16
            invariant
                t3 <= 16,
                db@.len() == 16,
                prev@.len() == 16,
                out2@ == out@ + xorb(db@, prev@).take(t3 as int),
            decreases 16 - t3,
        {
            let b: u8 = db[t3] ^ prev[t3];
            out2.push(b);
            proof {
                assert(out2@ =~= out@ + xorb(db@, prev@).take(t3 + 1));
            }
            t3 = t3 + 1;
        }
        let mut cblk: Vec<u8> = Vec::new();
        let mut t4: usize = 0;
        while t4 < 16
            invariant
                t4 <= 16,
                plen == data@.len(),
                off + 16 <= data@.len(),
                cblk@ == data@.subrange(off as int, off + 16).take(t4 as int),
            decreases 16 - t4,
        {
            cblk.push(data[off + t4]);
            proof {
                assert(cblk@ =~= data@.subrange(off as int, off + 16).take(t4 + 1));
            }
            t4 = t4 + 1;
        }
        proof {
            let sk = data@.skip(16 * i as int);
            assert(sk.take(16) =~= data@.subrange(off as int, off + 16));
            assert(sk.skip(16) =~= data@.skip(16 * (i + 1) as int));
            assert(sk.len() >= 16);
            assert(db@ == sm4_dec_block(rks@, sk.take(16)));
            assert(xorb(db@, prev@).take(16) =~= xorb(db@, prev@));
            assert(cblk@ =~= sk.take(16));
            assert(cbc_dec(rks@, prev@, sk) =~= xorb(db@, prev@) + cbc_dec(
                rks@,
                sk.take(16),
                sk.skip(16),
            ));
            assert(cbc_dec(rks@, iv@, data@) =~= out2@ + cbc_dec(
                rks@,
                cblk@,
                data@.skip(16 * (i + 1) as int),
            ));
        }
        out = out2;
        prev = cblk;
        i = i + 1;
    }
    proof {
        assert(data@.skip(16 * total as int) =~= Seq::<u8>::empty());
        assert(cbc_dec(rks@, prev@, Seq::<u8>::empty()) =~= Seq::<u8>::empty());
        assert(out@ + Seq::<u8>::empty() =~= out@);
        assert(16 * total == data@.len());
    }
    out
}

/// Encrypt in codebook mode: pad to whole blocks, then each block alone.
pub fn sm4_ecb_encrypt(key: &[u8], data: &[u8]) -> (r: Result<Vec<u8>, SmError>)
    ensures
        match r {
            Ok(c) => key@.len() == 16 && c@ == ecb_enc(rks_of_key(key@), pad16(data@)),
            Err(e) => e == SmError::InvalidKeyLength && key@.len() != 16,
        },
{
    let rks = match sm4_key_schedule(key) {
        Ok(v) => v,
        Err(e) => {
            return Err(e);
        },
    };
    let padded = pad16_e(data);
    Ok(ecb_enc_e(&rks, &padded))
}

/// Decrypt in codebook mode and strip the padding.
pub fn sm4_ecb_decrypt(key: &[u8], data: &[u8]) -> (r: Result<Vec<u8>, SmError>)
    ensures
        match r {
            Ok(m) => key@.len() == 16 && data@.len() % 16 == 0 && data@.len() > 0 && unpad16(
                ecb_dec(rks_of_key(key@), data@),
            ) == Some(m@),
            Err(e) => (e == SmError::InvalidKeyLength && key@.len() != 16) || (e
                == SmError::MalformedCiphertext && key@.len() == 16 && (data@.len() % 16 != 0
                || data@.len() == 0)) || (e == SmError::InvalidPadding && key@.len() == 16
                && data@.len() % 16 == 0 && data@.len() > 0 && unpad16(
                ecb_dec(rks_of_key(key@), data@),
            ) is None),
        },
{
    let rks = match sm4_key_schedule(key) {
        Ok(v) => v,
        Err(e) => {
            return Err(e);
        },
    };
    if data.len() == 0 || data.len() % 16 != 0 {
        return Err(SmError::MalformedCiphertext);
    }
    let plain = ecb_dec_e(&rks, data);
    unpad16_e(&plain)
}

/// Encrypt in chaining mode under a 16-byte key and IV.
pub fn sm4_cbc_encrypt(key: &[u8], iv: &[u8], data: &[u8]) -> (r: Result<Vec<u8>, SmError>)
    ensures
        match r {
            Ok(c) => key@.len() == 16 && iv@.len() == 16 && c@ == cbc_enc(
                rks_of_key(key@),
                iv@,
                pad16(data@),
            ),
            Err(e) => e == SmError::InvalidKeyLength && (key@.len() != 16 || iv@.len() != 16),
        },
{
    let rks = match sm4_key_schedule(key) {
        Ok(v) => v,
        Err(e) => {
            return Err(e);
        },
    };
    if iv.len() != 16 {
        return Err(SmError::InvalidKeyLength);
    }
    let padded = pad16_e(data);
    Ok(cbc_enc_e(&rks, iv, &padded))
}

/// Decrypt in chaining mode and strip the padding.
pub fn sm4_cbc_decrypt(key: &[u8], iv: &[u8], data: &[u8]) -> (r: Result<Vec<u8>, SmError>)
    ensures
        match r {
            Ok(m) => key@.len() == 16 && iv@.len() == 16 && data@.len() % 16 == 0 && data@.len()
                > 0 && unpad16(cbc_dec(rks_of_key(key@), iv@, data@)) == Some(m@),
            Err(e) => (e == SmError::InvalidKeyLength && (key@.len() != 16 || iv@.len() != 16)) || (
            e == SmError::MalformedCiphertext && key@.len() == 16 && iv@.len() == 16 && (data@.len()
                % 16 != 0 || data@.len() == 0)) || (e == SmError::InvalidPadding && key@.len() == 16
                && iv@.len() == 16 && data@.len() % 16 == 0 && data@.len() > 0 && unpad16(
                cbc_dec(rks_of_key(key@), iv@, data@),
            ) is None),
        },
{
    let rks = match sm4_key_schedule(key) {
        Ok(v) => v,
        Err(e) => {
            return Err(e);
        },
    };
    if iv.len() != 16 {
        return Err(SmError::InvalidKeyLength);
    }
    if data.len() == 0 || data.len() % 16 != 0 {
        return Err(SmError::MalformedCiphertext);
    }
    let plain = cbc_dec_e(&rks, iv, data);
    unpad16_e(&plain)
}

} // verus!
