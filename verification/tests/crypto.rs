use crap_os::base64::{base64_decode, base64_encode};
use crap_os::bytes::constant_time_eq;
use crap_os::crypto::cipher::aes::aes::{
    aes256_encrypt_block, gmul2, gmul3, KeySchedule, INV_SBOX, SBOX,
};
use crap_os::crypto::cipher::aes::aes_gcm::{
    decrypt, encrypt, gf128_mul, seal, AesGcmError, GCM_OVERHEAD,
};
use crap_os::crypto::hash::argon2::block::{block_to_bytes, bytes_to_block};
use crap_os::crypto::hash::argon2::memory::{index_alpha, Layout};
use crap_os::crypto::hash::argon2::phc::{decode_phc, encode_phc, parse_param, parse_u32};
use crap_os::crypto::hash::argon2::{
    hash_password, hash_password_with_params, verify_password, Argon2Error,
};
use crap_os::crypto::hash::blake2b::{
    blake2b, blake2b_256, blake2b_512, blake2b_512_slice, blake2b_mac_256, blake2b_mac_512,
    blake2b_variable, h_prime, Blake2bState,
};
use crap_os::crypto::hash::sha1::sha1;
use crap_os::crypto::hash::sha256::sha256;
use crap_os::crypto::hash::sha3::sha3_512;
use crap_os::crypto::hmac::hmac_sha256;
use crap_os::crypto::rng::{
    draw_8_bytes, fallback, first_source, get_random_bytes, get_random_bytes_vec, has_rdrand,
    has_rdseed, init_cpu, jitter_sample, reseed_cpu, tsc_value, wymix, xor_mix, CpuRngState, Source,
};

fn hex(bytes: &[u8]) -> String {
    bytes.iter().map(|b| format!("{:02x}", b)).collect()
}

fn unhex(text: &str) -> Vec<u8> {
    (0..text.len() / 2).map(|i| u8::from_str_radix(&text[2 * i..2 * i + 2], 16).unwrap()).collect()
}

fn counted(n: usize) -> Vec<u8> {
    (0..n).map(|i| i as u8).collect()
}

#[test]
fn sha1_digests() {
    assert_eq!(
        hex(&sha1(&counted(0))),
        "da39a3ee5e6b4b0d3255bfef95601890afd80709"
    );
    assert_eq!(
        hex(&sha1(&counted(3))),
        "0c7a623fd2bbc05b06423be359e4021d36e721ad"
    );
    assert_eq!(
        hex(&sha1(&counted(55))),
        "8ae2d46729cfe68ff927af5eec9c7d1b66d65ac2"
    );
    assert_eq!(
        hex(&sha1(&counted(56))),
        "636e2ec698dac903498e648bd2f3af641d3c88cb"
    );
    assert_eq!(
        hex(&sha1(&counted(63))),
        "6d942da0c4392b123528f2905c713a3ce28364bd"
    );
    assert_eq!(
        hex(&sha1(&counted(64))),
        "c6138d514ffa2135bfce0ed0b8fac65669917ec7"
    );
    assert_eq!(
        hex(&sha1(&counted(65))),
        "69bd728ad6e13cd76ff19751fde427b00e395746"
    );
    assert_eq!(
        hex(&sha1(&counted(200))),
        "54d11e99127d159799dbce10f51a75e697780478"
    );
}

#[test]
fn sha256_digests() {
    assert_eq!(
        hex(&sha256(&counted(0))),
        "e3b0c44298fc1c149afbf4c8996fb92427ae41e4649b934ca495991b7852b855"
    );
    assert_eq!(
        hex(&sha256(&counted(3))),
        "ae4b3280e56e2faf83f414a6e3dabe9d5fbe18976544c05fed121accb85b53fc"
    );
    assert_eq!(
        hex(&sha256(&counted(55))),
        "463eb28e72f82e0a96c0a4cc53690c571281131f672aa229e0d45ae59b598b59"
    );
    assert_eq!(
        hex(&sha256(&counted(56))),
        "da2ae4d6b36748f2a318f23e7ab1dfdf45acdc9d049bd80e59de82a60895f562"
    );
    assert_eq!(
        hex(&sha256(&counted(63))),
        "29af2686fd53374a36b0846694cc342177e428d1647515f078784d69cdb9e488"
    );
    assert_eq!(
        hex(&sha256(&counted(64))),
        "fdeab9acf3710362bd2658cdc9a29e8f9c757fcf9811603a8c447cd1d9151108"
    );
    assert_eq!(
        hex(&sha256(&counted(65))),
        "4bfd2c8b6f1eec7a2afeb48b934ee4b2694182027e6d0fc075074f2fabb31781"
    );
    assert_eq!(
        hex(&sha256(&counted(200))),
        "1901da1c9f699b48f6b2636e65cbf73abf99d0441ef67f5c540a42f7051dec6f"
    );
}

#[test]
fn sha3_512_digests() {
    assert_eq!(
        hex(&sha3_512(&counted(0))),
        "a69f73cca23a9ac5c8b567dc185a756e97c982164fe25859e0d1dcc1475c80a615b2123af1f5f94c11e3e9402c3ac558f500199d95b6d3e301758586281dcd26"
    );
    assert_eq!(
        hex(&sha3_512(&counted(3))),
        "123119ad1d6e168e0f20a3af1fb2e29c76bc3f83711cf3ee3122ae37ef6a1c2e094bd4bc53b7f9a45c9db1f900f87a3759327a659de341ef1a7b1787afbe9ebc"
    );
    assert_eq!(
        hex(&sha3_512(&counted(71))),
        "3ccc850d53a1287af7b4560b2ef0d43eb5d9a80d62a0e9cf1dbc040135921104d4395168e90bfc871773ebb34bca1bd67056e1cc7dc7a48ff7c3167d389f117c"
    );
    assert_eq!(
        hex(&sha3_512(&counted(72))),
        "5d63f2bbe971a983ac6847480106e4e1264ee3a0befd79954914e1d86e795b2e18238f12fc5e46cb9cc78efdec610a93647cc04e1c23d8caaa6a58c21dd26c07"
    );
    assert_eq!(
        hex(&sha3_512(&counted(73))),
        "921d9b7b2b0f3066a1646dbb058c979cb3925dec0f8c269faaa7f9648e73465ae55ec527257d5d5e1cfdbf5d6799bea1004b6186f5108c74e3b92fe924166558"
    );
    assert_eq!(
        hex(&sha3_512(&counted(144))),
        "e1951b8bcb58ca75a34af80a7a2b765cad4257fe383a79b55bf21f180b75f6e5b08f09598851eeea7d13486387618d6c6bf88cf23c0088a3f783f59a06d60493"
    );
    assert_eq!(
        hex(&sha3_512(&counted(200))),
        "ea5d05f19348dd589793354793a15f37a73b4c0bb4e750b9a00757dfce2f8b65a64191bb9b137de00feef6474cfd47abf7880efbc51614a5715df12cfe0caee3"
    );
}

#[test]
fn blake2b_512_digests() {
    assert_eq!(
        hex(&blake2b_512(&counted(0))),
        "786a02f742015903c6c6fd852552d272912f4740e15847618a86e217f71f5419d25e1031afee585313896444934eb04b903a685b1448b755d56f701afe9be2ce"
    );
    assert_eq!(
        hex(&blake2b_512(&counted(3))),
        "40a374727302d9a4769c17b5f409ff32f58aa24ff122d7603e4fda1509e919d4107a52c57570a6d94e50967aea573b11f86f473f537565c66f7039830a85d186"
    );
    assert_eq!(
        hex(&blake2b_512(&counted(127))),
        "b6292669ccd38d5f01caae96ba272c76a879a45743afa0725d83b9ebb26665b731f1848c52f11972b6644f554c064fa90780dbbbf3a89d4fc31f67df3e5857ef"
    );
    assert_eq!(
        hex(&blake2b_512(&counted(128))),
        "2319e3789c47e2daa5fe807f61bec2a1a6537fa03f19ff32e87eecbfd64b7e0e8ccff439ac333b040f19b0c4ddd11a61e24ac1fe0f10a039806c5dcc0da3d115"
    );
    assert_eq!(
        hex(&blake2b_512(&counted(129))),
        "f59711d44a031d5f97a9413c065d1e614c417ede998590325f49bad2fd444d3e4418be19aec4e11449ac1a57207898bc57d76a1bcf3566292c20c683a5c4648f"
    );
    assert_eq!(
        hex(&blake2b_512(&counted(256))),
        "1ecc896f34d3f9cac484c73f75f6a5fb58ee6784be41b35f46067b9c65c63a6794d3d744112c653f73dd7deb6666204c5a9bfa5b46081fc10fdbe7884fa5cbf8"
    );
    assert_eq!(
        hex(&blake2b_512(&counted(257))),
        "d8bfe068de0b4f9fa876a3f8024eb9f7b0029fd5dcf251199e065cee89e1a282c8dbf0442f2ade7294ac1c6be19b388dc990c34d8cb79f5f10c54fa813834fda"
    );
}

#[test]
fn blake2b_256_digests() {
    assert_eq!(
        hex(&blake2b_256(&counted(0))),
        "0e5751c026e543b2e8ab2eb06099daa1d1e5df47778f7787faab45cdf12fe3a8"
    );
    assert_eq!(
        hex(&blake2b_256(&counted(128))),
        "c3582f71ebb2be66fa5dd750f80baae97554f3b015663c8be377cfcb2488c1d1"
    );
    assert_eq!(
        hex(&blake2b_256(&counted(200))),
        "63c3d97a9f8894d5e043a707b0fee7f7ec4c049a23bbf1079df20b4165f9e22d"
    );
}

#[test]
fn blake2b_lengths_and_keys() {
    let data = counted(130);
    let key = counted(64);
    assert_eq!(blake2b(&data, 0, None), None);
    assert_eq!(blake2b(&data, 65, None), None);
    assert_eq!(blake2b(&data, 20, Some(&[])), None);
    assert_eq!(blake2b(&data, 20, Some(&counted(65))), None);
    assert_eq!(
        hex(&blake2b(&data, 20, None).unwrap()),
        "44c843a35f07fbacb9f7819cd11cad0359a7a6b4"
    );
    assert_eq!(
        hex(&blake2b(&data, 20, Some(&key)).unwrap()),
        "0d3ff8849217123facdc97dabf029b481e32a61f"
    );
    assert_eq!(
        hex(&blake2b_mac_512(&data, &key[..5]).unwrap()),
        "c808af615ef1115da40140c62f75717e08b052175f35bd80ed14aeec480e304505d991127dcc715a1485da36d2c3f856336b027592bbf65c935ba2ae0aead5a3"
    );
    assert_eq!(
        hex(&blake2b_mac_256(&data, &key).unwrap()),
        "815f6c0bbd56b1b9ec520625c3600ca824d30b1f7aed12531fdfe94c20dc2be9"
    );
    assert_eq!(blake2b_mac_512(&data, &[]), None);
    assert_eq!(blake2b_mac_256(&data, &counted(65)), None);
    assert_eq!(blake2b_variable(&data, 0), blake2b(&data, 1, None).unwrap());
    assert_eq!(blake2b_variable(&data, 99), blake2b_512(&data).to_vec());
    assert_eq!(blake2b_512_slice(&data), blake2b_512(&data));
}

#[test]
fn blake2b_in_pieces() {
    let data = counted(255);
    for cut in [0, 1, 127, 128, 129, 255] {
        let mut state = Blake2bState::new(64, None);
        state.update(&data[..cut]);
        state.update(&data[cut..]);
        assert_eq!(state.finalize(), blake2b_512(&data).to_vec());
    }
}

#[test]
fn long_digests_are_chained() {
    assert_eq!(
        hex(&h_prime(b"abc", 32)),
        "6cfcbf5d43e547674bfbc009070570bcb84e272d359c1e9277e416d74cbbe1c6"
    );
    assert_eq!(
        hex(&h_prime(b"abc", 65)),
        "77baa447fe6f777c9bcb519545ce80badaf08ecb973fbb4ff45af7d8b569ec7caad65f72669d05153cdeaa563a162bb5ae4c42214551593816008dc560c5a65391"
    );
    assert_eq!(
        hex(&sha256(&h_prime(b"abc", 1024))),
        "6492df1f721b3aeb51184792d6408cdea912bd4b74ba8113ae617acbeb874a1d"
    );
}

#[test]
fn hmac_tags() {
    assert_eq!(
        hex(&hmac_sha256(b"key", b"The quick brown fox jumps over the lazy dog")),
        "f7bc83f430538424b13298e6aa6fb143ef4d59a14946175997479dbc2d1a3cd8"
    );
    assert_eq!(
        hex(&hmac_sha256(&counted(64), &counted(100))),
        "e0fc11a31f1f2b329e227864906e9a8b39de647be9e0a456fe509e8b63f111af"
    );
    let long = counted(131);
    assert_eq!(
        hex(&hmac_sha256(&long, b"message")),
        "02dae3e3c683280b3454fb97d29fcf8f4d2b984bc7ead9e2ee38c868e702c773"
    );
    assert_eq!(hmac_sha256(&long, b"message"), hmac_sha256(&sha256(&long), b"message"));
    assert_eq!(hmac_sha256(b"k", b""), hmac_sha256(b"k\0\0", b""));
}

#[test]
fn base64_texts() {
    assert_eq!(base64_encode(b""), "");
    assert_eq!(base64_encode(b"f"), "Zg");
    assert_eq!(base64_encode(b"fo"), "Zm8");
    assert_eq!(base64_encode(b"foo"), "Zm9v");
    assert_eq!(base64_encode(b"foobar"), "Zm9vYmFy");
    assert_eq!(base64_encode(&[0xfb, 0xff, 0xfe]), "+//+");
    assert_eq!(base64_decode("+//+"), Some(vec![0xfb, 0xff, 0xfe]));
    assert_eq!(base64_decode("Zm9vYg"), Some(b"foob".to_vec()));
    assert_eq!(base64_decode("Z"), None);
    assert_eq!(base64_decode("Zg=="), None);
    assert_eq!(base64_decode("Zm-v"), None);
    for n in 0..10 {
        let data: Vec<u8> = (0..n).map(|i| (i * 37 + 200) as u8).collect();
        assert_eq!(base64_decode(&base64_encode(&data)), Some(data));
    }
}

#[test]
fn password_records() {
    assert_eq!(
        hash_password_with_params(b"password", b"somesalt", 8, 1, 1).unwrap(),
        "$argon2id$v=19$m=8,t=1,p=1$c29tZXNhbHQ$gWWPT9HcjpOClupkP62oAAso1ArNdoN9OWrGlBDmYg0"
    );
    assert_eq!(
        hash_password_with_params(b"password", b"somesaltier", 19, 2, 2).unwrap(),
        "$argon2id$v=19$m=19,t=2,p=2$c29tZXNhbHRpZXI$/ZsKXKHfjK4FaslNntug7x4NaBHdd/+cuiWb3e3hipc"
    );
    assert_eq!(
        hash_password_with_params(b"pw", b"0123456789abcdef", 64, 3, 1).unwrap(),
        "$argon2id$v=19$m=64,t=3,p=1$MDEyMzQ1Njc4OWFiY2RlZg$h214ai0LjfZiml2Vm+yTGJwFxfvTQtwNXhzx+Z/IXH8"
    );
}

#[test]
fn password_parameters_are_checked() {
    let (pw, salt) = (b"password", b"somesalt");
    let check = |p: &[u8], s: &[u8], m, t, l| hash_password_with_params(p, s, m, t, l).unwrap_err();
    assert_eq!(check(b"", b"", 0, 0, 0), Argon2Error::PasswordEmpty);
    assert_eq!(check(pw, b"7 bytes", 0, 0, 0), Argon2Error::SaltTooShort);
    assert_eq!(check(pw, salt, 0, 0, 0), Argon2Error::TimeCostZero);
    assert_eq!(check(pw, salt, 0, 1, 0), Argon2Error::ParallelismZero);
    assert_eq!(check(pw, salt, 15, 1, 2), Argon2Error::MemoryCostTooLow);
    assert_eq!(check(pw, salt, 64, 1, 0x2000_0000), Argon2Error::MemoryCostTooLow);
    assert_eq!(hash_password(b"", salt), Err(Argon2Error::PasswordEmpty));
}

#[test]
fn hashed_password_verifies() {
    let phc = hash_password_with_params(b"correct horse", b"battery staple", 32, 2, 2).unwrap();
    assert_eq!(verify_password(b"correct horse", &phc), Ok(()));
    assert_eq!(verify_password(b"correct horsf", &phc), Err(Argon2Error::PasswordMismatch));
    assert_eq!(verify_password(b"x", "$argon2i$v=19$m=8,t=1,p=1$AA$AA"), Err(Argon2Error::InvalidPhcString));
}

#[test]
fn default_costs() {
    let phc = hash_password(b"password", b"somesalt").unwrap();
    assert!(phc.starts_with("$argon2id$v=19$m=19456,t=2,p=1$c29tZXNhbHQ$"));
    assert_eq!(verify_password(b"password", &phc), Ok(()));
}

#[test]
fn records_are_read_back() {
    let hash = [7u8; 32];
    let text = encode_phc(b"salt", &hash, 0, 4294967295, 12);
    assert_eq!(
        text,
        "$argon2id$v=19$m=0,t=4294967295,p=12$c2FsdA$BwcHBwcHBwcHBwcHBwcHBwcHBwcHBwcHBwcHBwcHBwc"
    );
    let (salt, read, m, t, p) = decode_phc(&text).unwrap();
    assert_eq!((salt, read, m, t, p), (b"salt".to_vec(), hash.to_vec(), 0, 4294967295, 12));
    for bad in [
        "",
        "argon2id$v=19$m=1,t=1,p=1$AA$AA",
        "x$argon2id$v=19$m=1,t=1,p=1$AA$AA",
        "$argon2id$v=18$m=1,t=1,p=1$AA$AA",
        "$argon2id$v=19$m=1,t=1$AA$AA",
        "$argon2id$v=19$t=1,m=1,p=1$AA$AA",
        "$argon2id$v=19$m=,t=1,p=1$AA$AA",
        "$argon2id$v=19$m=4294967296,t=1,p=1$AA$AA",
        "$argon2id$v=19$m=1x,t=1,p=1$AA$AA",
        "$argon2id$v=19$m=1,t=1,p=1$A*$AA",
        "$argon2id$v=19$m=1,t=1,p=1$AA$AA$",
        "$argon2id$v=19$m=1,t=1,p=1$AA$\u{e9}",
    ] {
        assert_eq!(decode_phc(bad), Err(Argon2Error::InvalidPhcString), "{}", bad);
    }
    assert_eq!(parse_u32(b"007"), Some(7));
    assert_eq!(parse_u32(b"4294967295"), Some(u32::MAX));
    assert_eq!(parse_u32(b"99999999999999999999"), None);
    assert_eq!(parse_u32(b"+1"), None);
    assert_eq!(parse_param(b"m=19456", b'm'), Some(19456));
    assert_eq!(parse_param(b"m19456", b'm'), None);
}

#[test]
fn blocks_and_bytes() {
    let mut block = [0u64; 128];
    for i in 0..128 {
        block[i] = (i as u64).wrapping_mul(0x9e37_79b9_7f4a_7c15);
    }
    let bytes = block_to_bytes(&block);
    assert_eq!(bytes.len(), 1024);
    assert_eq!(bytes_to_block(&bytes), block);
}

#[test]
fn reference_blocks() {
    let one = Layout { lanes: 1, lane_len: 16, segment_len: 4 };
    for pass in 0..2usize {
        for slice in 0..4usize {
            for s in 0..4usize {
                if pass == 0 && slice * 4 + s < 2 {
                    continue;
                }
                for word in [0, 1, 0x8000_0000, 0xFFFF_FFFF, u64::MAX] {
                    let r = index_alpha(word, &one, pass, 0, slice, s);
                    assert!(r < 16);
                    assert_ne!(r, slice * 4 + s);
                    assert!(pass > 0 || r < slice * 4 + s);
                }
            }
        }
    }
    let two = Layout { lanes: 2, lane_len: 8, segment_len: 2 };
    assert_eq!(index_alpha(0, &two, 0, 1, 2, 1), 11);
    assert_eq!(index_alpha(6, &two, 1, 0, 3, 0), 1);
    assert_eq!(index_alpha(12, &two, 1, 0, 3, 0), 14);
    assert_eq!(index_alpha(12, &two, 1, 1, 3, 1), 7);
    for lane in 0..2usize {
        for slice in 0..4usize {
            for s in 0..2usize {
                for word in 0..40 {
                    assert_ne!(index_alpha(word, &two, 1, lane, slice, s), 8 * lane + 2 * slice + s);
                }
            }
        }
    }
}

#[test]
fn aes_block() {
    let key: [u8; 32] = counted(32).try_into().unwrap();
    let schedule = KeySchedule::new(&key);
    let mut block: [u8; 16] = unhex("00112233445566778899aabbccddeeff").try_into().unwrap();
    aes256_encrypt_block(&mut block, &schedule);
    assert_eq!(hex(&block), "8ea2b7ca516745bfeafc49904b496089");
    assert_eq!(schedule.round_key(0), key[..16]);
    assert_eq!(schedule.round_key(1), key[16..]);
    assert_eq!(hex(&schedule.round_key(14)), "24fc79ccbf0979e9371ac23c6d68de36");
}

#[test]
fn aes_field() {
    assert_eq!(gmul2(0x57), 0xae);
    assert_eq!(gmul2(0xae), 0x47);
    assert_eq!(gmul3(0x57), 0xf9);
    for x in 0..256 {
        assert_eq!(INV_SBOX[SBOX[x] as usize] as usize, x);
        assert_eq!(SBOX[INV_SBOX[x] as usize] as usize, x);
    }
}

#[test]
fn gcm_messages() {
    let zero_key = [0u8; 32];
    assert_eq!(
        hex(&seal(&zero_key, &[0; 12], b"")),
        "530f8afbc74536b9a963b4f1c4cb738b000000000000000000000000"
    );
    assert_eq!(
        hex(&seal(&zero_key, &[0; 12], &[0; 16])),
        "d0d1c8a799996bf0265b98b5d48ab919000000000000000000000000cea7403d4d606b6e074ec5d3baf39d18"
    );
    let key: [u8; 32] =
        unhex("feffe9928665731c6d6a8f9467308308feffe9928665731c6d6a8f9467308308").try_into().unwrap();
    let iv: [u8; 12] = unhex("cafebabefacedbaddecaf888").try_into().unwrap();
    let plain = unhex(
        "d9313225f88406e5a55909c5aff5269a86a7a9531534f7da2e4c303d8a318a721c3c0c95956809532fcf0e2449a6b525b16aedf5aa0de657ba637b391aafd255",
    );
    let sealed = seal(&key, &iv, &plain);
    assert_eq!(hex(&sealed[..16]), "b094dac5d93471bdec1a502270e3cc6c");
    assert_eq!(&sealed[16..28], &iv);
    assert_eq!(
        hex(&sealed[28..]),
        "522dc1f099567d07f47f37a32a84427d643a8cdcbfe5c0c97598a2bd2555d1aa8cb08e48590dbb3da7b08b1056828838c5f61e6393ba7a0abcc9f662898015ad"
    );
    assert_eq!(decrypt(&key, &sealed), Ok(plain));
}

#[test]
fn gcm_refuses_what_was_changed() {
    let key = [9u8; 32];
    let sealed = seal(&key, &[3; 12], b"attack at dawn, and not before");
    assert_eq!(decrypt(&key, &sealed), Ok(b"attack at dawn, and not before".to_vec()));
    for at in [0, 15, 16, 27, 28, sealed.len() - 1] {
        let mut changed = sealed.clone();
        changed[at] ^= 1;
        assert_eq!(decrypt(&key, &changed), Err(AesGcmError::AuthenticationFailure));
    }
    assert_eq!(decrypt(&[8u8; 32], &sealed), Err(AesGcmError::AuthenticationFailure));
    assert_eq!(decrypt(&key, &sealed[..27]), Err(AesGcmError::CiphertextTooShort));
    assert_eq!(decrypt(&key, &sealed[..40]), Err(AesGcmError::AuthenticationFailure));
}

#[test]
fn gcm_draws_its_vector() {
    let mut rng = init_cpu(&[1, 2, 3, 4]);
    let mut other = init_cpu(&[1, 2, 3, 4]);
    let words = [10, 11, 12, 13, 14, 15];
    let key = [1u8; 32];
    let sealed = encrypt(&key, b"text", &mut rng, &words);
    let mut iv = [0u8; 12];
    get_random_bytes(&mut other, &mut iv, &words);
    assert_eq!(sealed, seal(&key, &iv, b"text"));
    assert_eq!(sealed.len(), 4 + GCM_OVERHEAD);
    let again = encrypt(&key, b"text", &mut rng, &[14, 15]);
    assert_ne!(again[16..28], sealed[16..28]);
    assert_eq!(decrypt(&key, &again), Ok(b"text".to_vec()));
}

#[test]
fn field_products() {
    let mut one = [0u8; 16];
    one[0] = 0x80;
    let h: [u8; 16] = unhex("66e94bd4ef8a2c3b884cfa59ca342b2e").try_into().unwrap();
    let c: [u8; 16] = unhex("0388dace60b6a392f328c2b971b2fe78").try_into().unwrap();
    assert_eq!(gf128_mul(&h, &one), h);
    assert_eq!(gf128_mul(&one, &h), h);
    assert_eq!(hex(&gf128_mul(&c, &h)), "5e2ec746917062882c85b0685353deb7");
    assert_eq!(gf128_mul(&c, &h), gf128_mul(&h, &c));
}

#[test]
fn equality_in_constant_time() {
    assert!(constant_time_eq(b"", b""));
    assert!(constant_time_eq(b"abc", b"abc"));
    assert!(!constant_time_eq(b"abc", b"abd"));
    assert!(!constant_time_eq(b"abc", b"ab"));
}

#[test]
fn random_words_are_bound_to_the_pool() {
    let mut state = init_cpu(&[0x11, 0x22, 0x33, 0x44]);
    assert_eq!(draw_8_bytes(&mut state, 0xFF00), 0xFF11u64.to_le_bytes());
    assert_eq!(draw_8_bytes(&mut state, 0), 0x22u64.to_le_bytes());
    assert_eq!(draw_8_bytes(&mut state, 0), 0x33u64.to_le_bytes());
    assert_eq!(draw_8_bytes(&mut state, 0), 0x44u64.to_le_bytes());
    assert_eq!(draw_8_bytes(&mut state, 0), 0x11u64.to_le_bytes());
    reseed_cpu(&mut state, &[0x100, 0x200, 0x300, 0x400]);
    assert_eq!(draw_8_bytes(&mut state, 0), 0x222u64.to_le_bytes());
}

#[test]
fn random_bytes_take_words_in_order() {
    let mut state = init_cpu(&[0x11, 0x22, 0x33, 0x44]);
    assert!(state.reseed_due());
    assert_eq!(state.words_needed(11), 6);
    let mut buffer = [0u8; 11];
    get_random_bytes(&mut state, &mut buffer, &[0x100, 0, 0, 0, 1, 2]);
    let mut expected = 0x110u64.to_le_bytes().to_vec();
    expected.extend_from_slice(&0x20u64.to_le_bytes()[..3]);
    assert_eq!(buffer.to_vec(), expected);
    assert!(!state.reseed_due());
    assert_eq!(state.words_needed(11), 2);
    assert_eq!(state.words_needed(0), 0);
    assert_eq!(get_random_bytes_vec(&mut state, 8, &[0]), 0x33u64.to_le_bytes().to_vec());
    let mut none = [0u8; 0];
    get_random_bytes(&mut state, &mut none, &[]);
    assert_eq!(get_random_bytes_vec(&mut state, 1, &[0]), vec![0x44]);
}

#[test]
fn the_pool_is_refreshed_at_intervals() {
    let mut state = CpuRngState::init();
    for call in 0..130 {
        assert_eq!(state.reseed_due(), call % 64 == 0);
        let words = [5, 0, 0, 0, 7];
        let need = state.words_needed(1);
        get_random_bytes_vec(&mut state, 1, &words[5 - need..]);
    }
    let mut pool = [3u8; 32];
    let fresh = [5u8; 32];
    xor_mix(&mut pool, &fresh);
    assert_eq!(pool, [6u8; 32]);
    xor_mix(&mut pool, &fresh);
    assert_eq!(pool, [3u8; 32]);
}

#[test]
fn hardware_sources() {
    assert!(has_rdrand(1 << 30) && !has_rdrand(!(1 << 30)));
    assert!(has_rdseed(1 << 18) && !has_rdseed(!(1 << 18)));
    assert_eq!(first_source(true, true, true), Source::Seed);
    assert_eq!(first_source(false, true, true), Source::Generator);
    assert_eq!(first_source(true, false, true), Source::Generator);
    assert_eq!(first_source(true, false, false), Source::Jitter);
    assert_eq!(fallback(Source::Seed), Source::Generator);
    assert_eq!(fallback(Source::Generator), Source::Jitter);
    assert_eq!(fallback(Source::Jitter), Source::Jitter);
    assert_eq!(tsc_value(0x89ABCDEF, 0x01234567), 0x0123_4567_89AB_CDEF);
}

#[test]
fn jitter_is_folded() {
    assert_eq!(wymix(u64::MAX, u64::MAX), u64::MAX);
    assert_eq!(wymix(3, 5), 15);
    assert_eq!(wymix(1 << 63, 4), 2);
    assert_eq!(jitter_sample(JITTER_ARGS.0, JITTER_ARGS.1, JITTER_ARGS.2), JITTER_RESULT);
}

const JITTER_ARGS: (u64, u64, u64) = (0x123456789abcdef0, 0xfedcba9876543210, 0x123456789abcdfff);
const JITTER_RESULT: u64 = 0x88d83e5821222106;
