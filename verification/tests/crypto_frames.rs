use chacha20poly1305::aead::generic_array::GenericArray;
use chacha20poly1305::aead::AeadInPlace;
use chacha20poly1305::{KeyInit, XChaCha20Poly1305};
use hangar::crypto::{FRAME_OVERHEAD, KEY_SIZE, NONCE_SIZE, SALT_SIZE, TAG_SIZE};
use hangar::frame::{seal, seal_with_nonce, unseal};
use hangar::{Argon2Params, Encryption, Error};

const QUICK: Argon2Params = Argon2Params { m_cost_kib: 64, t_cost: 1, p_cost: 1 };

fn lock(password: &str) -> Encryption {
    Encryption::from_password(password, [7; 16], QUICK).unwrap()
}

#[test]
fn default_costs() {
    let p = Argon2Params::default();
    assert_eq!((p.m_cost_kib, p.t_cost, p.p_cost), (65536, 3, 4));
    assert_eq!((KEY_SIZE, NONCE_SIZE, TAG_SIZE, SALT_SIZE, FRAME_OVERHEAD), (32, 24, 16, 16, 40));
}

#[test]
fn key_is_what_argon2id_derives() {
    let params = argon2::Params::new(64, 1, 1, Some(32)).unwrap();
    let hasher = argon2::Argon2::new(argon2::Algorithm::Argon2id, argon2::Version::V0x13, params);
    let mut expected = [0u8; 32];
    hasher.hash_password_into("p\u{e4}ss".as_bytes(), &[7; 16], &mut expected).unwrap();
    let enc = lock("p\u{e4}ss");
    assert_eq!(enc.key, expected);
    assert_ne!(enc.key, [0u8; 32]);
    assert_eq!(enc.salt, [7; 16]);
    assert_eq!(enc.argon2, QUICK);
}

#[test]
fn key_depends_on_password_salt_and_costs() {
    let a = lock("a").key;
    assert_ne!(a, lock("b").key);
    assert_ne!(a, Encryption::from_password("a", [8; 16], QUICK).unwrap().key);
    let slower = Argon2Params { t_cost: 2, ..QUICK };
    assert_ne!(a, Encryption::from_password("a", [7; 16], slower).unwrap().key);
    assert_eq!(a, lock("a").key);
}

fn crypto_text(params: Argon2Params) -> String {
    match Encryption::from_password("x", [0; 16], params) {
        Err(Error::Crypto(text)) => text,
        Err(other) => panic!("{:?}", other),
        Ok(_) => panic!("accepted"),
    }
}

#[test]
fn bad_costs_are_refused() {
    assert_eq!(crypto_text(Argon2Params { m_cost_kib: 7, t_cost: 1, p_cost: 1 }), "argon2 params: memory cost is too small");
    assert_eq!(crypto_text(Argon2Params { m_cost_kib: 15, t_cost: 1, p_cost: 2 }), "argon2 params: memory cost is too small");
    assert_eq!(crypto_text(Argon2Params { m_cost_kib: 64, t_cost: 0, p_cost: 1 }), "argon2 params: time cost is too small");
    assert_eq!(crypto_text(Argon2Params { m_cost_kib: 64, t_cost: 1, p_cost: 0 }), "argon2 params: not enough threads");
    assert_eq!(crypto_text(Argon2Params { m_cost_kib: u32::MAX, t_cost: 1, p_cost: 0x0100_0000 }), "argon2 params: too many threads");
    assert_eq!(crypto_text(Argon2Params { m_cost_kib: 64, t_cost: 1, p_cost: u32::MAX }), "argon2 params: memory cost is too small");
}

#[test]
fn new_password_draws_a_fresh_salt() {
    let a = Encryption::from_new_password("pw", QUICK).unwrap();
    let b = Encryption::from_new_password("pw", QUICK).unwrap();
    assert_ne!(a.salt, b.salt);
    assert_eq!(a.key, Encryption::from_password("pw", a.salt, QUICK).unwrap().key);
    assert!(matches!(
        Encryption::from_new_password("pw", Argon2Params { m_cost_kib: 1, ..QUICK }),
        Err(Error::Crypto(_))
    ));
}

#[test]
fn sealed_frame_is_what_the_cipher_makes() {
    let enc = lock("k");
    let nonce = [3u8; 24];
    let frame = seal_with_nonce(&enc, &nonce, b"attack at dawn".to_vec()).unwrap();
    let cipher = XChaCha20Poly1305::new(GenericArray::from_slice(&enc.key));
    let mut body = b"attack at dawn".to_vec();
    let tag = cipher
        .encrypt_in_place_detached(GenericArray::from_slice(&nonce), b"", &mut body)
        .unwrap();
    let mut expected = nonce.to_vec();
    expected.extend_from_slice(&body);
    expected.extend_from_slice(&tag);
    assert_eq!(frame, expected);
    assert_eq!(frame.len(), 14 + 40);
    assert_ne!(&frame[24..38], b"attack at dawn");
}

#[test]
fn seal_and_unseal_give_the_payload_back() {
    let enc = Some(lock("k"));
    let one = seal(&enc, vec![1, 2, 3]).unwrap();
    let two = seal(&enc, vec![1, 2, 3]).unwrap();
    assert_eq!(one.len(), 43);
    assert_ne!(one, two);
    assert_eq!(unseal(&enc, one, "t").unwrap(), vec![1, 2, 3]);
    assert_eq!(unseal(&enc, two, "t").unwrap(), vec![1, 2, 3]);
    let empty = seal(&enc, Vec::new()).unwrap();
    assert_eq!(empty.len(), 40);
    assert_eq!(unseal(&enc, empty, "t").unwrap(), Vec::<u8>::new());
}

#[test]
fn without_encryption_frames_are_as_they_are() {
    assert_eq!(seal(&None, vec![5]).unwrap(), vec![5]);
    assert_eq!(unseal(&None, vec![5], "t").unwrap(), vec![5]);
}

#[test]
fn tampered_frames_and_wrong_keys_are_refused() {
    let enc = Some(lock("k"));
    let frame = seal(&enc, vec![1, 2, 3]).unwrap();
    for at in [0usize, 24, 42] {
        let mut bad = frame.clone();
        bad[at] ^= 1;
        assert!(matches!(unseal(&enc, bad, "t"), Err(Error::WrongPasswordOrTampered)));
    }
    assert!(matches!(unseal(&Some(lock("other")), frame, "t"), Err(Error::WrongPasswordOrTampered)));
    assert!(matches!(unseal(&enc, vec![0; 39], "too small"), Err(Error::Corrupt("too small"))));
}

#[test]
fn encrypt_and_decrypt_in_place() {
    let enc = lock("k");
    let mut buf = [1u8, 2, 3, 4];
    let (nonce, tag) = enc.encrypt(&mut buf).unwrap();
    assert_ne!(buf, [1, 2, 3, 4]);
    let sealed = buf;
    enc.decrypt(&nonce, &tag, &mut buf).unwrap();
    assert_eq!(buf, [1, 2, 3, 4]);
    let mut wrong = sealed;
    assert!(matches!(enc.decrypt(&nonce, &[0; 16], &mut wrong), Err(Error::WrongPasswordOrTampered)));
    assert_eq!(wrong, sealed);
    for at in 0..16 {
        let mut other = tag;
        other[at] ^= 0x80;
        assert!(matches!(enc.decrypt(&nonce, &other, &mut wrong), Err(Error::WrongPasswordOrTampered)));
        assert_eq!(wrong, sealed);
    }
}
