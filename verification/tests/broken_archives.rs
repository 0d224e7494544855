use hangar::error::IoFault;
use hangar::extract::{check_content, content_in};
use hangar::groups::frame_groups;
use hangar::index::{read_index, write_index};
use hangar::reader::Opening;
use hangar::{Argon2Params, Encryption, Entry, Error, Footer, Reader, Result, Writer, WriterMode};
use xxhash_rust::xxh3::xxh3_64;

const QUICK: Argon2Params = Argon2Params { m_cost_kib: 64, t_cost: 1, p_cost: 1 };

fn no_password() -> Result<String> {
    panic!("no password is needed")
}

fn archive() -> Vec<u8> {
    let mut w = Writer::new(1, None, 0, false, WriterMode::Solid { target_bytes: 100 }, None).unwrap();
    w.add_file("a", 1, 2, 3, b"alpha").unwrap();
    w.add_file("b", 1, 2, 3, b"beta").unwrap();
    w.finish().unwrap()
}

fn open(bytes: &[u8]) -> Result<Reader> {
    Reader::open(bytes, no_password)
}

/// The archive with its entries changed, and index and footer to match.
fn with_entries(change: fn(&mut Vec<Entry>)) -> Vec<u8> {
    let whole = archive();
    let reader = open(&whole).unwrap();
    let start = reader.footer.index_offset as usize;
    let end = start + reader.footer.index_size as usize;
    let mut rest: &[u8] = &whole[start..end];
    let mut entries = read_index(&mut rest).unwrap();
    change(&mut entries);
    let mut index = Vec::new();
    write_index(&mut index, &entries).unwrap();
    let mut out = whole[..start].to_vec();
    out.extend_from_slice(&index);
    Footer { index_offset: start as u64, index_size: index.len() as u64, index_xxh3: xxh3_64(&index), flags: 0 }
        .write_to(&mut out)
        .unwrap();
    out
}

#[test]
fn hash_of_nothing() {
    let index: Vec<u8> = Vec::new();
    assert_eq!(xxh3_64(&index), 0x2D06800538D394C2);
    let mut w = Writer::new(1, None, 0, false, WriterMode::PerFile, None).unwrap();
    w.add_file("e", 1, 2, 3, &[]).unwrap();
    let bytes = w.finish().unwrap();
    assert_eq!(open(&bytes).unwrap().entries[0].content_xxh3, 0x2D06800538D394C2);
}

#[test]
fn content_hash_is_xxh3() {
    let bytes = archive();
    let reader = open(&bytes).unwrap();
    assert_eq!(reader.entries[0].content_xxh3, xxh3_64(b"alpha"));
    let (from, to) = (reader.footer.index_offset as usize, bytes.len() - 32);
    assert_eq!(reader.footer.index_xxh3, xxh3_64(&bytes[from..to]));
}

#[test]
fn too_small_a_file_is_refused() {
    assert!(matches!(open(&[0; 63]), Err(Error::Corrupt("file too small for HGR1"))));
    assert!(matches!(open(&[0; 64]), Err(Error::BadMagic)));
    assert!(matches!(Reader::probe(&[0; 3]), Err(Error::Io(IoFault::UnexpectedEof))));
}

#[test]
fn inconsistent_footers_are_refused() {
    let mut bytes = archive();
    bytes.insert(40, 0);
    assert!(matches!(open(&bytes), Err(Error::Corrupt("footer index pointer inconsistent"))));
    let mut bytes = archive();
    let at = bytes.len() - 32;
    for b in &mut bytes[at..at + 16] {
        *b = 0xFF;
    }
    assert!(matches!(open(&bytes), Err(Error::Corrupt("footer index pointer inconsistent"))));
    let mut bytes = archive();
    let last = bytes.len() - 1;
    bytes[last] = 0;
    assert!(matches!(open(&bytes), Err(Error::BadMagic)));
}

#[test]
fn changed_index_is_noticed() {
    let mut bytes = archive();
    let at = bytes.len() - 33;
    bytes[at] ^= 1;
    assert!(matches!(open(&bytes), Err(Error::IndexChecksum)));
}

#[test]
fn encrypted_index_too_small_is_refused() {
    let enc = Encryption::from_password("p", [1; 16], QUICK).unwrap();
    let w = Writer::new(1, None, 0, false, WriterMode::PerFile, Some(enc)).unwrap();
    let mut bytes = w.finish().unwrap();
    assert_eq!(bytes.len(), 72 + 44 + 32);
    bytes.truncate(72);
    bytes.extend_from_slice(&[0; 39]);
    Footer { index_offset: 72, index_size: 39, index_xxh3: 0, flags: 0 }.write_to(&mut bytes).unwrap();
    assert!(matches!(
        Reader::open(&bytes, || Ok("p".to_string())),
        Err(Error::Corrupt("encrypted index too small"))
    ));
    bytes.truncate(71);
    assert!(matches!(
        Reader::open(&bytes, || Ok("p".to_string())),
        Err(Error::Io(IoFault::UnexpectedEof))
    ));
}

#[test]
fn wrong_content_hash_is_noticed() {
    let bytes = with_entries(|e| e[1].content_xxh3 ^= 1);
    let reader = open(&bytes).unwrap();
    let mut delivered = Vec::new();
    match reader.for_each_file(&bytes, &mut delivered) {
        Err(Error::ContentChecksum { path }) => assert_eq!(path, "b"),
        other => panic!("{:?}", other),
    }
    assert_eq!(delivered, vec![(0, b"alpha".to_vec())]);
    let mut out = Vec::new();
    match reader.extract_entry(&bytes, 1, &mut out) {
        Err(Error::ContentChecksum { path }) => assert_eq!(path, "b"),
        other => panic!("{:?}", other),
    }
    assert_eq!(out, b"beta");
    assert!(matches!(reader.verify_all(&bytes), Err(Error::ContentChecksum { .. })));
}

#[test]
fn range_beyond_the_block_is_noticed() {
    let bytes = with_entries(|e| e[1].uncompressed_size = 5);
    let reader = open(&bytes).unwrap();
    assert!(matches!(
        reader.verify_all(&bytes),
        Err(Error::Corrupt("entry range exceeds decoded block size"))
    ));
    let mut out = Vec::new();
    assert!(matches!(reader.extract_entry(&bytes, 1, &mut out), Err(Error::ContentChecksum { .. })));
    assert_eq!(out, b"beta");
    let bytes = with_entries(|e| {
        e[1].block_offset = u64::MAX;
        e[1].uncompressed_size = u64::MAX;
    });
    assert!(matches!(
        open(&bytes).unwrap().verify_all(&bytes),
        Err(Error::Corrupt("entry range exceeds decoded block size"))
    ));
}

#[test]
fn frame_beyond_the_archive_is_noticed() {
    let bytes = with_entries(|e| e[0].frame_compressed_size = 1 << 40);
    let reader = open(&bytes).unwrap();
    assert!(matches!(reader.verify_all(&bytes), Err(Error::Io(IoFault::UnexpectedEof))));
    let mut out = Vec::new();
    assert!(matches!(
        reader.extract_entry(&bytes, 0, &mut out),
        Err(Error::Io(IoFault::UnexpectedEof))
    ));
}

#[test]
fn range_of_a_frame() {
    let bytes = archive();
    let total = bytes.len() as u64;
    let mut reader = open(&bytes).unwrap();
    let group = frame_groups(&reader.entries).remove(0);
    let size = reader.entries[0].frame_compressed_size;
    assert_eq!(reader.frame_range(&group, total).unwrap(), Some((32, size)));
    assert_eq!(reader.frame_range(&group, 32 + size).unwrap(), Some((32, size)));
    for short in [31 + size, 31, 0] {
        assert!(matches!(
            reader.frame_range(&group, short),
            Err(Error::Io(IoFault::UnexpectedEof))
        ));
    }
    reader.entries[0].frame_compressed_size = 0;
    assert_eq!(reader.frame_range(&group, 0).unwrap(), None);
}

#[test]
fn damaged_frame_is_noticed() {
    let mut bytes = archive();
    bytes[32] ^= 0xFF;
    let reader = open(&bytes).unwrap();
    assert!(matches!(reader.verify_all(&bytes), Err(Error::Io(IoFault::Source(_)))));
    let mut out = Vec::new();
    assert!(matches!(
        reader.extract_entry(&bytes, 0, &mut out),
        Err(Error::Io(IoFault::Source(_)))
    ));
    assert!(matches!(reader.decode_frame(vec![1, 2, 3]), Err(Error::Io(IoFault::Source(_)))));
}

#[test]
fn encrypted_frame_too_small_is_refused() {
    let enc = Encryption::from_password("p", [1; 16], QUICK).unwrap();
    let mut w = Writer::new(1, None, 0, false, WriterMode::PerFile, Some(enc)).unwrap();
    w.add_file("a", 1, 2, 3, b"alpha").unwrap();
    let bytes = w.finish().unwrap();
    let mut reader = Reader::open(&bytes, || Ok("p".to_string())).unwrap();
    reader.verify_all(&bytes).unwrap();
    reader.entries[0].frame_compressed_size = 39;
    assert!(matches!(
        reader.verify_all(&bytes),
        Err(Error::Corrupt("encrypted frame too small"))
    ));
    assert!(matches!(
        reader.decode_frame(vec![0; 10]),
        Err(Error::Corrupt("encrypted frame too small"))
    ));
}

#[test]
fn content_is_held_against_its_entry() {
    let bytes = archive();
    let reader = open(&bytes).unwrap();
    let e = &reader.entries[0];
    check_content(e, 5, xxh3_64(b"alpha")).unwrap();
    assert!(check_content(e, 4, xxh3_64(b"alpha")).is_err());
    assert!(check_content(e, 5, 0).is_err());
    assert_eq!(content_in(e, b"alphabeta").unwrap(), b"alpha");
    assert!(content_in(e, b"alph").is_err());
}

#[test]
fn opening_step_by_step() {
    let enc = Encryption::from_password("p", [1; 16], QUICK).unwrap();
    let mut w = Writer::new(1, None, 0, false, WriterMode::PerFile, Some(enc)).unwrap();
    w.add_file("a", 1, 2, 3, b"alpha").unwrap();
    let bytes = w.finish().unwrap();
    let total = bytes.len() as u64;
    let opening = Opening::start(total, &bytes[..72]).unwrap();
    assert!(opening.enc_header.is_some());
    let encryption = opening.unlock("p").unwrap();
    let footer = opening.locate(&bytes[bytes.len() - 32..]).unwrap();
    let from = footer.index_offset as usize;
    let stored = bytes[from..from + footer.index_size as usize].to_vec();
    let reader = opening.load(encryption, footer, stored).unwrap();
    assert_eq!(reader.entries[0].path, "a");
    assert!(matches!(Opening::start(63, &bytes), Err(Error::Corrupt(_))));
    let plain = archive();
    let opening = Opening::start(plain.len() as u64, &plain).unwrap();
    assert!(opening.unlock("whatever").unwrap().is_none());
}
