use hangar::crypto::{Argon2Params, CipherAlgo, KdfAlgo};
use hangar::error::IoFault;
use hangar::format::{EncryptionHeader, ENCRYPTION_HEADER_SIZE, FLAG_ENCRYPTED, FOOTER_SIZE, HEADER_SIZE};
use hangar::{EntryKind, Error, Footer, Header, MAGIC, VERSION_MAJOR, VERSION_MINOR};

fn sample_header() -> Header {
    Header { version_major: 1, version_minor: 1, flags: 1, created_at: -2 }
}

#[test]
fn header_has_the_documented_bytes() {
    let mut out = vec![9u8];
    sample_header().write_to(&mut out).unwrap();
    let mut expected = vec![9u8];
    expected.extend_from_slice(b"HGR1");
    expected.extend_from_slice(&[1, 0, 1, 0, 1, 0, 0, 0]);
    expected.extend_from_slice(&[0xFE, 0xFF, 0xFF, 0xFF, 0xFF, 0xFF, 0xFF, 0xFF]);
    expected.extend_from_slice(&[0u8; 12]);
    assert_eq!(out, expected);
    assert_eq!(out.len() as u64 - 1, HEADER_SIZE);
}

#[test]
fn header_reads_back_and_moves_on() {
    let mut out = Vec::new();
    sample_header().write_to(&mut out).unwrap();
    out.extend_from_slice(&[7, 8]);
    let mut rest: &[u8] = &out;
    assert_eq!(Header::read_from(&mut rest).unwrap(), sample_header());
    assert_eq!(rest, &[7, 8]);
}

#[test]
fn new_header_is_plain() {
    let h = Header::new(77);
    assert_eq!(h.version_major, VERSION_MAJOR);
    assert_eq!(h.version_minor, VERSION_MINOR);
    assert_eq!(h.created_at, 77);
    assert!(!h.encrypted());
    assert!(sample_header().encrypted());
    assert_eq!(FLAG_ENCRYPTED, 1);
}

#[test]
fn header_of_another_magic_is_refused() {
    let mut out = Vec::new();
    sample_header().write_to(&mut out).unwrap();
    out[3] = b'2';
    let mut rest: &[u8] = &out;
    assert!(matches!(Header::read_from(&mut rest), Err(Error::BadMagic)));
    assert_eq!(rest, &out[4..]);
}

#[test]
fn header_of_another_major_version_is_refused() {
    let mut out = Vec::new();
    Header { version_major: 2, version_minor: 7, flags: 0, created_at: 0 }.write_to(&mut out).unwrap();
    let mut rest: &[u8] = &out;
    assert!(matches!(
        Header::read_from(&mut rest),
        Err(Error::UnsupportedVersion { major: 2, minor: 7 })
    ));
    assert_eq!(rest, &out[8..]);
}

#[test]
fn short_header_ends_early() {
    let mut out = Vec::new();
    sample_header().write_to(&mut out).unwrap();
    for len in [0usize, 3, 5, 31] {
        let mut rest: &[u8] = &out[..len];
        assert!(matches!(Header::read_from(&mut rest), Err(Error::Io(IoFault::UnexpectedEof))));
        assert!(rest.is_empty());
    }
}

fn sample_encryption_header() -> EncryptionHeader {
    EncryptionHeader {
        cipher_algo: CipherAlgo::XChaCha20Poly1305,
        kdf_algo: KdfAlgo::Argon2id,
        argon2: Argon2Params { m_cost_kib: 0x01020304, t_cost: 5, p_cost: 6 },
        salt: [0xAB; 16],
    }
}

#[test]
fn encryption_header_has_the_documented_bytes() {
    let mut out = Vec::new();
    sample_encryption_header().write_to(&mut out).unwrap();
    let mut expected = vec![1u8, 1, 0, 0, 4, 3, 2, 1, 5, 0, 0, 0, 6, 0, 0, 0];
    expected.extend_from_slice(&[0xAB; 16]);
    expected.extend_from_slice(&[0u8; 8]);
    assert_eq!(out, expected);
    assert_eq!(out.len() as u64, ENCRYPTION_HEADER_SIZE);
}

#[test]
fn encryption_header_reads_back() {
    let mut out = Vec::new();
    sample_encryption_header().write_to(&mut out).unwrap();
    let mut rest: &[u8] = &out;
    let eh = EncryptionHeader::read_from(&mut rest).unwrap();
    assert_eq!(eh.argon2, sample_encryption_header().argon2);
    assert_eq!(eh.salt, [0xAB; 16]);
    assert!(rest.is_empty());
}

#[test]
fn unknown_algorithms_are_refused() {
    let mut out = Vec::new();
    sample_encryption_header().write_to(&mut out).unwrap();
    out[1] = 2;
    let mut rest: &[u8] = &out;
    assert!(matches!(EncryptionHeader::read_from(&mut rest), Err(Error::Corrupt("unknown KDF algorithm"))));
    assert_eq!(rest, &out[2..]);
    out[0] = 0;
    let mut rest: &[u8] = &out;
    assert!(matches!(EncryptionHeader::read_from(&mut rest), Err(Error::Corrupt("unknown cipher algorithm"))));
    assert_eq!(rest, &out[1..]);
    let mut rest: &[u8] = &[1, 1, 0];
    assert!(matches!(EncryptionHeader::read_from(&mut rest), Err(Error::Io(IoFault::UnexpectedEof))));
    assert!(rest.is_empty());
    assert_eq!(CipherAlgo::from_u8(1).unwrap(), CipherAlgo::XChaCha20Poly1305);
    assert_eq!(KdfAlgo::from_u8(1).unwrap(), KdfAlgo::Argon2id);
    assert!(CipherAlgo::from_u8(3).is_err());
    assert!(KdfAlgo::from_u8(0).is_err());
}

#[test]
fn footer_has_the_documented_bytes_and_reads_back() {
    let f = Footer { index_offset: 0x0102, index_size: 3, index_xxh3: u64::MAX, flags: 4 };
    let mut out = Vec::new();
    f.write_to(&mut out).unwrap();
    let mut expected = vec![2u8, 1, 0, 0, 0, 0, 0, 0, 3, 0, 0, 0, 0, 0, 0, 0];
    expected.extend_from_slice(&[0xFF; 8]);
    expected.extend_from_slice(&[4, 0, 0, 0]);
    expected.extend_from_slice(&MAGIC);
    assert_eq!(out, expected);
    assert_eq!(out.len() as u64, FOOTER_SIZE);
    let mut rest: &[u8] = &out;
    assert_eq!(Footer::read_from(&mut rest).unwrap(), f);
}

#[test]
fn broken_footers_are_refused() {
    let f = Footer { index_offset: 0, index_size: 0, index_xxh3: 0, flags: 0 };
    let mut out = Vec::new();
    f.write_to(&mut out).unwrap();
    let mut rest: &[u8] = &out[..31];
    assert!(matches!(Footer::read_from(&mut rest), Err(Error::Io(IoFault::UnexpectedEof))));
    assert!(rest.is_empty());
    out[31] = 0;
    out.push(9);
    let mut rest: &[u8] = &out;
    assert!(matches!(Footer::read_from(&mut rest), Err(Error::BadMagic)));
    assert_eq!(rest, [9]);
}

#[test]
fn entry_kinds_have_their_numbers() {
    assert_eq!(EntryKind::from_u8(0).unwrap(), EntryKind::File);
    assert_eq!(EntryKind::from_u8(1).unwrap(), EntryKind::Dir);
    assert_eq!(EntryKind::from_u8(2).unwrap(), EntryKind::Symlink);
    assert!(matches!(EntryKind::from_u8(3), Err(Error::Corrupt("unknown entry kind"))));
    assert_eq!(EntryKind::Symlink.code(), 2);
}
