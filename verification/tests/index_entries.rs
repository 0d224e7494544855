use hangar::error::IoFault;
use hangar::index::{read_index, write_index};
use hangar::{Entry, EntryKind, Error};

fn file(path: &str) -> Entry {
    Entry {
        path: path.to_string(),
        kind: EntryKind::File,
        mode: 0o644,
        mtime_sec: -1,
        mtime_nsec: 5,
        uncompressed_size: 6,
        frame_compressed_size: 7,
        frame_offset: 8,
        block_offset: 9,
        content_xxh3: 10,
        link_target: None,
    }
}

fn link(path: &str, target: Option<&str>) -> Entry {
    Entry { kind: EntryKind::Symlink, link_target: target.map(|t| t.to_string()), ..file(path) }
}

fn same(a: &Entry, b: &Entry) -> bool {
    format!("{:?}", a) == format!("{:?}", b)
}

#[test]
fn file_entry_has_the_documented_bytes() {
    let mut out = Vec::new();
    file("ab").write_to(&mut out).unwrap();
    let mut expected = vec![2u8, 0, b'a', b'b', 0, 0xA4, 1, 0, 0];
    expected.extend_from_slice(&[0xFF; 8]);
    expected.extend_from_slice(&[5, 0, 0, 0]);
    for n in [6u8, 7, 8, 9, 10] {
        expected.extend_from_slice(&[n, 0, 0, 0, 0, 0, 0, 0]);
    }
    assert_eq!(out, expected);
}

#[test]
fn link_entry_carries_its_target() {
    let mut out = Vec::new();
    link("l", Some("\u{e9}")).write_to(&mut out).unwrap();
    assert_eq!(&out[out.len() - 4..], &[2, 0, 0xC3, 0xA9]);
    let mut rest: &[u8] = &out;
    let back = Entry::read_from(&mut rest).unwrap();
    assert!(same(&back, &link("l", Some("\u{e9}"))));
    assert!(rest.is_empty());
}

#[test]
fn link_without_target_reads_back_with_an_empty_one() {
    let mut out = Vec::new();
    link("l", None).write_to(&mut out).unwrap();
    let mut rest: &[u8] = &out;
    assert!(same(&Entry::read_from(&mut rest).unwrap(), &link("l", Some(""))));
}

#[test]
fn file_with_target_reads_back_without_it() {
    let mut e = file("f");
    e.link_target = Some("x".to_string());
    let mut out = Vec::new();
    e.write_to(&mut out).unwrap();
    let mut rest: &[u8] = &out;
    assert!(same(&Entry::read_from(&mut rest).unwrap(), &file("f")));
}

#[test]
fn path_of_65536_bytes_is_refused() {
    let mut out = vec![1u8];
    match file(&"x".repeat(65536)).write_to(&mut out) {
        Err(Error::InvalidPath(text)) => assert_eq!(text, "path too long (65536 bytes)"),
        other => panic!("{:?}", other),
    }
    assert_eq!(out, vec![1u8]);
    file(&"x".repeat(65535)).write_to(&mut out).unwrap();
}

#[test]
fn target_of_70000_bytes_is_refused() {
    let mut out = Vec::new();
    match link("l", Some(&"y".repeat(70000))).write_to(&mut out) {
        Err(Error::InvalidPath(text)) => assert_eq!(text, "symlink target too long (70000 bytes)"),
        other => panic!("{:?}", other),
    }
}

#[test]
fn index_reads_back_in_order() {
    let entries = vec![file("a"), link("b", Some("a")), file("c/d")];
    let mut out = Vec::new();
    write_index(&mut out, &entries).unwrap();
    assert_eq!(&out[..4], &[3, 0, 0, 0]);
    out.push(99);
    let mut rest: &[u8] = &out;
    let back = read_index(&mut rest).unwrap();
    assert_eq!(back.len(), 3);
    for i in 0..3 {
        assert!(same(&back[i], &entries[i]));
    }
    assert_eq!(rest, &[99]);
}

#[test]
fn empty_index_is_four_zero_bytes() {
    let mut out = Vec::new();
    write_index(&mut out, &[]).unwrap();
    assert_eq!(out, vec![0, 0, 0, 0]);
    let mut rest: &[u8] = &out;
    assert!(read_index(&mut rest).unwrap().is_empty());
}

#[test]
fn index_that_ends_early_is_refused() {
    let mut out = Vec::new();
    write_index(&mut out, &[file("a")]).unwrap();
    for len in [0usize, 3, 5, out.len() - 1] {
        let mut rest: &[u8] = &out[..len];
        assert!(matches!(read_index(&mut rest), Err(Error::Io(IoFault::UnexpectedEof))));
        assert!(rest.is_empty());
    }
}

#[test]
fn entry_with_bad_utf8_or_kind_is_refused() {
    let mut out = Vec::new();
    file("a").write_to(&mut out).unwrap();
    let mut bad = out.clone();
    bad[2] = 0xFF;
    let mut rest: &[u8] = &bad;
    assert!(matches!(Entry::read_from(&mut rest), Err(Error::Utf8(_))));
    assert_eq!(rest, &bad[3..]);
    out[3] = 7;
    let mut rest: &[u8] = &out;
    assert!(matches!(Entry::read_from(&mut rest), Err(Error::Corrupt("unknown entry kind"))));
    assert_eq!(rest, &out[4..]);
}

#[test]
fn broken_index_is_read_up_to_what_is_wrong() {
    let mut out = Vec::new();
    write_index(&mut out, &[file("a"), link("l", Some("t"))]).unwrap();
    let first = 2 + 1 + 57;
    let mut bad = out.clone();
    bad[4 + first + 2 + 1] = 7;
    let mut rest: &[u8] = &bad;
    assert!(matches!(read_index(&mut rest), Err(Error::Corrupt("unknown entry kind"))));
    assert_eq!(rest, &bad[4 + first + 4..]);
    let end = out.len();
    out[end - 1] = 0xFF;
    out.push(5);
    let mut rest: &[u8] = &out;
    assert!(matches!(read_index(&mut rest), Err(Error::Utf8(_))));
    assert_eq!(rest, [5]);
}

#[test]
fn what_was_read_is_written_as_it_was() {
    let mut out = Vec::new();
    link("x/y", Some("../z")).write_to(&mut out).unwrap();
    let mut rest: &[u8] = &out;
    let e = Entry::read_from(&mut rest).unwrap();
    let mut again = Vec::new();
    e.clone().write_to(&mut again).unwrap();
    assert_eq!(out, again);
}
