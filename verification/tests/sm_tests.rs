use gmsm::{
    sm2_decrypt_c1c2c3, sm2_decrypt_c1c3c2, sm2_encrypt_c1c2c3, sm2_encrypt_c1c3c2,
    sm2_gen_keypair, sm3_digest, sm4_decrypt_cbc, sm4_decrypt_ecb, sm4_encrypt_cbc,
    sm4_encrypt_ecb, SmError,
};

fn hex_bytes(s: &str) -> Vec<u8> {
    let b = s.as_bytes();
    let mut out = Vec::new();
    let mut i = 0;
    while i + 1 < b.len() {
        let hi = (b[i] as char).to_digit(16).unwrap() as u8;
        let lo = (b[i + 1] as char).to_digit(16).unwrap() as u8;
        out.push(hi * 16 + lo);
        i += 2;
    }
    out
}

#[test]
fn sm3_abc_vector() {
    let d = sm3_digest(b"abc".to_vec());
    assert_eq!(
        d,
        "66c7f0f462eeedd9d1f2d46bdc10e4e24167c4875cf2f7a2297da02b8f4ba8e0"
    );
}

#[test]
fn sm3_double_block_vector() {
    let msg = b"abcdabcdabcdabcdabcdabcdabcdabcdabcdabcdabcdabcdabcdabcdabcdabcd".to_vec();
    let d = sm3_digest(msg);
    assert_eq!(
        d,
        "debe9ff92275b8a138604889c18e5a4d6fdb70e5387e5765293dcba39c0c5732"
    );
}

#[test]
fn sm3_matches_reference() {
    for msg in [
        b"".to_vec(),
        b"a".to_vec(),
        b"encryption standard".to_vec(),
        vec![0u8; 200],
    ] {
        let ours = sm3_digest(msg.clone());
        let theirs = smcrypto::sm3::sm3_hash(&msg);
        assert_eq!(ours, theirs);
    }
}

#[test]
fn sm3_deterministic() {
    let a = sm3_digest(b"same input".to_vec());
    let b = sm3_digest(b"same input".to_vec());
    assert_eq!(a, b);
    assert_eq!(a.len(), 64);
}

#[test]
fn sm4_standard_vector() {
    let key = hex_bytes("0123456789abcdeffedcba9876543210");
    let pt = hex_bytes("0123456789abcdeffedcba9876543210");
    let ct = sm4_encrypt_ecb(key, pt).unwrap();
    assert_eq!(&ct[0..16], &hex_bytes("681edf34d206965e86b3e94f536e4246")[..]);
}

#[test]
fn sm4_ecb_roundtrip_boundaries() {
    let key = hex_bytes("0123456789abcdeffedcba9876543210");
    for n in [0usize, 1, 15, 16, 17] {
        let msg: Vec<u8> = (0..n).map(|i| i as u8).collect();
        let ct = sm4_encrypt_ecb(key.clone(), msg.clone()).unwrap();
        assert_eq!(ct.len() % 16, 0);
        let back = sm4_decrypt_ecb(key.clone(), ct).unwrap();
        assert_eq!(back, msg);
    }
}

#[test]
fn sm4_cbc_roundtrip_boundaries() {
    let key = hex_bytes("0123456789abcdeffedcba9876543210");
    let iv = hex_bytes("000102030405060708090a0b0c0d0e0f");
    for n in [0usize, 1, 15, 16, 17] {
        let msg: Vec<u8> = (0..n).map(|i| (i * 7) as u8).collect();
        let ct = sm4_encrypt_cbc(key.clone(), iv.clone(), msg.clone()).unwrap();
        let back = sm4_decrypt_cbc(key.clone(), iv.clone(), ct).unwrap();
        assert_eq!(back, msg);
    }
}

#[test]
fn sm4_ecb_leaks_equal_blocks_cbc_does_not() {
    let key = hex_bytes("0123456789abcdeffedcba9876543210");
    let iv = hex_bytes("00000000000000000000000000000001");
    let msg: Vec<u8> = [[7u8; 16], [7u8; 16]].concat();
    let ecb = sm4_encrypt_ecb(key.clone(), msg.clone()).unwrap();
    assert_eq!(&ecb[0..16], &ecb[16..32]);
    let cbc = sm4_encrypt_cbc(key, iv, msg).unwrap();
    assert_ne!(&cbc[0..16], &cbc[16..32]);
}

#[test]
fn sm4_matches_reference() {
    let key = hex_bytes("fedcba98765432100123456789abcdef");
    let iv = hex_bytes("0123456789abcdeffedcba9876543210");
    let msg = b"reference interoperability check".to_vec();
    let ecb_ref = smcrypto::sm4::CryptSM4ECB::new(&key);
    assert_eq!(
        sm4_encrypt_ecb(key.clone(), msg.clone()).unwrap(),
        ecb_ref.encrypt_ecb(&msg)
    );
    let cbc_ref = smcrypto::sm4::CryptSM4CBC::new(&key, &iv);
    assert_eq!(
        sm4_encrypt_cbc(key.clone(), iv.clone(), msg.clone()).unwrap(),
        cbc_ref.encrypt_cbc(&msg)
    );
}

#[test]
fn sm4_key_length_checked() {
    let r = sm4_encrypt_ecb(vec![0u8; 15], b"x".to_vec());
    assert_eq!(r.unwrap_err(), SmError::InvalidKeyLength);
    let r = sm4_encrypt_cbc(vec![0u8; 16], vec![0u8; 5], b"x".to_vec());
    assert_eq!(r.unwrap_err(), SmError::InvalidKeyLength);
}

#[test]
fn sm4_decrypt_rejects_bad_lengths_and_padding() {
    let key = hex_bytes("0123456789abcdeffedcba9876543210");
    let r = sm4_decrypt_ecb(key.clone(), vec![0u8; 17]);
    assert_eq!(r.unwrap_err(), SmError::MalformedCiphertext);
    let r = sm4_decrypt_ecb(key.clone(), Vec::new());
    assert_eq!(r.unwrap_err(), SmError::MalformedCiphertext);
    // a single block whose plaintext ends in 0x00 can never carry valid padding
    let ct = sm4_encrypt_ecb(key.clone(), vec![0u8; 16]).unwrap();
    let r = sm4_decrypt_ecb(key, ct[0..16].to_vec());
    assert_eq!(r.unwrap_err(), SmError::InvalidPadding);
}

#[test]
fn sm2_roundtrip_c1c3c2() {
    let kp = sm2_gen_keypair().unwrap();
    let msg = b"encryption standard".to_vec();
    let ct = sm2_encrypt_c1c3c2(kp.public_key.clone(), msg.clone()).unwrap();
    let back = sm2_decrypt_c1c3c2(kp.private_key.clone(), ct).unwrap();
    assert_eq!(back, msg);
}

#[test]
fn sm2_roundtrip_c1c2c3() {
    let kp = sm2_gen_keypair().unwrap();
    let msg = b"the other wire layout".to_vec();
    let ct = sm2_encrypt_c1c2c3(kp.public_key.clone(), msg.clone()).unwrap();
    let back = sm2_decrypt_c1c2c3(kp.private_key.clone(), ct).unwrap();
    assert_eq!(back, msg);
}

#[test]
fn sm2_keypair_shapes() {
    let kp = sm2_gen_keypair().unwrap();
    assert_eq!(kp.private_key.len(), 64);
    assert_eq!(kp.public_key.len(), 130);
    assert!(kp.public_key.starts_with("04"));
}

#[test]
fn sm2_matches_reference() {
    let kp = sm2_gen_keypair().unwrap();
    let msg = b"interoperability".to_vec();
    // the reference takes the coordinates without the point prefix
    let pk_bare = kp.public_key[2..].to_string();
    let enc_ref = smcrypto::sm2::Encrypt::new(&pk_bare);
    let ct_ref = enc_ref.encrypt(&msg);
    let back = sm2_decrypt_c1c3c2(kp.private_key.clone(), ct_ref).unwrap();
    assert_eq!(back, msg);
    let ct_ours = sm2_encrypt_c1c3c2(kp.public_key.clone(), msg.clone()).unwrap();
    let dec_ref = smcrypto::sm2::Decrypt::new(&kp.private_key);
    assert_eq!(dec_ref.decrypt(&ct_ours), msg);
}

#[test]
fn sm2_accepts_bare_coordinate_key() {
    let kp = sm2_gen_keypair().unwrap();
    let msg = b"no prefix".to_vec();
    let pk_bare = kp.public_key[2..].to_string();
    let ct = sm2_encrypt_c1c3c2(pk_bare, msg.clone()).unwrap();
    assert_eq!(sm2_decrypt_c1c3c2(kp.private_key, ct).unwrap(), msg);
}

#[test]
fn sm2_tamper_in_tag_detected() {
    let kp = sm2_gen_keypair().unwrap();
    let msg = b"tamper with me".to_vec();
    let ct = sm2_encrypt_c1c3c2(kp.public_key.clone(), msg.clone()).unwrap();
    // the tag sits in bytes 64..96 of this layout
    for byte in [64usize, 80, 95] {
        let mut bad = ct.clone();
        bad[byte] ^= 0x01;
        let r = sm2_decrypt_c1c3c2(kp.private_key.clone(), bad);
        assert_eq!(r.unwrap_err(), SmError::IntegrityCheckFailed);
    }
    let ct2 = sm2_encrypt_c1c2c3(kp.public_key.clone(), msg).unwrap();
    let last = ct2.len() - 1;
    let mut bad2 = ct2.clone();
    bad2[last] ^= 0x80;
    let r = sm2_decrypt_c1c2c3(kp.private_key, bad2);
    assert_eq!(r.unwrap_err(), SmError::IntegrityCheckFailed);
}

#[test]
fn sm2_rejects_bad_keys_and_ciphertexts() {
    let r = sm2_encrypt_c1c3c2("zz".to_string(), b"m".to_vec());
    assert_eq!(r.unwrap_err(), SmError::InvalidKeyLength);
    // right length, but the point is not on the curve
    let bogus = "1".repeat(128);
    let r = sm2_encrypt_c1c3c2(bogus, b"m".to_vec());
    assert_eq!(r.unwrap_err(), SmError::PointNotOnCurve);
    let kp = sm2_gen_keypair().unwrap();
    let r = sm2_decrypt_c1c3c2(kp.private_key.clone(), vec![0u8; 40]);
    assert_eq!(r.unwrap_err(), SmError::MalformedCiphertext);
    let r = sm2_decrypt_c1c3c2("0".repeat(64), vec![0u8; 120]);
    assert_eq!(r.unwrap_err(), SmError::InvalidOperand);
}

#[test]
fn sm2_standard_example_decrypts() {
    // the worked example of the standard: fixed private key and ciphertext
    let sk = "3945208f7b2144b13f36e38ac6d39f95889393692860b51a42fb81ef4df7c5b8";
    let ct = hex_bytes("04ebfc718e8d1798620432268e77feb6415e2ede0e073c0f4f640ecd2e149a73e858f9d81e5430a57b36daab8f950a3c64e6ee6a63094d99283aff767e124df059983c18f809e262923c53aec295d30383b54e39d609d160afcb1908d0bd876621886ca989ca9c7d58087307ca93092d651efa");
    let back = sm2_decrypt_c1c3c2(sk.to_string(), ct).unwrap();
    assert_eq!(back, b"encryption standard".to_vec());
}

#[test]
fn sm2_standard_example_encrypts() {
    // the same example reproduced forward, with the standard's ephemeral scalar
    let k = gmsm::fe::Fe {
        l0: 0x6d54b80deac1bc21,
        l1: 0xef3cc1fa3cdbe4ce,
        l2: 0x16680f3ad9c02dcc,
        l3: 0x59276e27d506861a,
    };
    let pk = gmsm::curve::CurvePoint::Affine(
        gmsm::fe::Fe {
            l0: 0x6bb08ff356f35020,
            l1: 0x72179fad1833fc07,
            l2: 0x50dd7d161e4bc5c6,
            l3: 0x09f9df311e5421a1,
        },
        gmsm::fe::Fe {
            l0: 0x6632f6072da9ad13,
            l1: 0x0aed05fbf35e084a,
            l2: 0x2dc6ea718cc1aa60,
            l3: 0xccea490ce26775a5,
        },
    );
    let msg = b"encryption standard".to_vec();
    let ct = gmsm::sm2::sm2_encrypt_with_k(&pk, &msg, &k, true).unwrap();
    let expected = hex_bytes("04ebfc718e8d1798620432268e77feb6415e2ede0e073c0f4f640ecd2e149a73e858f9d81e5430a57b36daab8f950a3c64e6ee6a63094d99283aff767e124df059983c18f809e262923c53aec295d30383b54e39d609d160afcb1908d0bd876621886ca989ca9c7d58087307ca93092d651efa");
    assert_eq!(ct, expected);
}

#[test]
fn sm2_roundtrip_empty_message() {
    let kp = sm2_gen_keypair().unwrap();
    let ct = sm2_encrypt_c1c3c2(kp.public_key.clone(), Vec::new()).unwrap();
    assert_eq!(ct.len(), 96);
    let back = sm2_decrypt_c1c3c2(kp.private_key, ct).unwrap();
    assert_eq!(back, Vec::<u8>::new());
}
