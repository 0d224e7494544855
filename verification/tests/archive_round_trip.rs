use hangar::extract::content_in;
use hangar::groups::frame_groups;
use hangar::listing::{restore_step, RestoreStep};
use hangar::{Argon2Params, Encryption, EntryKind, Error, Reader, Result, Writer, WriterMode};
use std::collections::BTreeMap;

const QUICK: Argon2Params = Argon2Params { m_cost_kib: 64, t_cost: 1, p_cost: 1 };

fn no_password() -> Result<String> {
    panic!("no password is needed")
}

fn lock() -> Option<Encryption> {
    Some(Encryption::from_new_password("secret", QUICK).unwrap())
}

fn text(n: usize) -> Vec<u8> {
    (0..n).map(|i| (i * i % 251) as u8).collect()
}

fn fill(w: &mut Writer) {
    w.add_dir("d", 0o755, 1, 2).unwrap();
    w.add_file("d/one", 0o644, 3, 4, &text(1000)).unwrap();
    w.add_symlink("d/l", "one", 5, 6).unwrap();
    w.add_file("d/empty", 0o600, 7, 8, &[]).unwrap();
    w.add_file("two", 0, -9, 10, &text(300_000)).unwrap();
}

fn contents() -> Vec<(usize, Vec<u8>)> {
    vec![(1, text(1000)), (3, Vec::new()), (4, text(300_000))]
}

fn check(archive: &[u8], reader: &Reader) {
    let kinds: Vec<EntryKind> = reader.entries.iter().map(|e| e.kind).collect();
    assert_eq!(
        kinds,
        vec![EntryKind::Dir, EntryKind::File, EntryKind::Symlink, EntryKind::File, EntryKind::File]
    );
    assert_eq!(reader.entries[2].link_target.as_deref(), Some("one"));
    assert_eq!(reader.entries[1].link_target, None);
    assert_eq!(reader.entries[4].path, "two");
    assert_eq!(reader.entries[4].mtime_sec, -9);
    assert_eq!(reader.entries[4].uncompressed_size, 300_000);
    let mut delivered = Vec::new();
    reader.for_each_file(archive, &mut delivered).unwrap();
    assert_eq!(delivered, contents());
    for (i, content) in contents() {
        let mut out = vec![42u8];
        assert_eq!(reader.extract_entry(archive, i, &mut out).unwrap(), content.len() as u64);
        assert_eq!(&out[1..], &content[..]);
    }
    reader.verify_all(archive).unwrap();
    let mut out = Vec::new();
    assert_eq!(reader.extract_entry(archive, 0, &mut out).unwrap(), 0);
    assert_eq!(reader.extract_entry(archive, 2, &mut out).unwrap(), 0);
    assert!(matches!(
        reader.extract_entry(archive, 5, &mut out),
        Err(Error::Corrupt("entry index out of range"))
    ));
    assert!(out.is_empty());
}

fn build(mode: WriterMode, workers: u32, long: bool, enc: Option<Encryption>) -> Vec<u8> {
    let mut w = Writer::new(1234, Some(5), workers, long, mode, enc).unwrap();
    fill(&mut w);
    w.finish().unwrap()
}

#[test]
fn per_file_archive_reads_back() {
    let archive = build(WriterMode::PerFile, 0, false, None);
    let reader = Reader::open(&archive, no_password).unwrap();
    assert_eq!(reader.header.created_at, 1234);
    check(&archive, &reader);
    assert_ne!(reader.entries[1].frame_offset, reader.entries[4].frame_offset);
    assert_eq!(reader.entries[1].frame_offset, 32);
    assert_eq!(reader.entries[4].block_offset, 0);
}

#[test]
fn solid_archive_shares_one_frame() {
    let archive = build(WriterMode::Solid { target_bytes: 1 << 30 }, 0, false, None);
    let reader = Reader::open(&archive, no_password).unwrap();
    check(&archive, &reader);
    let e = &reader.entries;
    assert_eq!(e[1].frame_offset, e[4].frame_offset);
    assert_eq!(e[1].frame_compressed_size, e[4].frame_compressed_size);
    assert!(e[1].frame_compressed_size > 0);
    assert_eq!(e[1].block_offset, 0);
    assert_eq!(e[3].block_offset, 1000);
    assert_eq!(e[4].block_offset, 1000);
}

#[test]
fn solid_block_closes_at_its_target() {
    let archive = build(WriterMode::Solid { target_bytes: 1000 }, 0, false, None);
    let reader = Reader::open(&archive, no_password).unwrap();
    check(&archive, &reader);
    assert_ne!(reader.entries[1].frame_offset, reader.entries[3].frame_offset);
    assert_eq!(reader.entries[3].frame_offset, reader.entries[4].frame_offset);
}

/// The frame, and the offset in it, of each file of an archive with these files,
/// in chunks of `step` bytes; all of it at once where that is nothing.
fn places(target_bytes: u64, sizes: &[usize], step: usize) -> Vec<(usize, u64)> {
    let mode = WriterMode::Solid { target_bytes };
    let mut w = Writer::new(9, None, 0, false, mode, None).unwrap();
    for (i, size) in sizes.iter().enumerate() {
        let path = format!("f{}", i);
        if step == 0 {
            w.add_file(&path, 1, 2, 3, &text(*size)).unwrap();
        } else {
            w.begin_file(&path, 1, 2, 3).unwrap();
            for chunk in text(*size).chunks(step) {
                w.write_chunk(chunk).unwrap();
            }
            w.end_file().unwrap();
        }
    }
    let archive = w.finish().unwrap();
    let reader = Reader::open(&archive, no_password).unwrap();
    let mut delivered = Vec::new();
    reader.for_each_file(&archive, &mut delivered).unwrap();
    let expected: Vec<(usize, Vec<u8>)> =
        sizes.iter().enumerate().map(|(i, size)| (i, text(*size))).collect();
    assert_eq!(delivered, expected);
    reader.verify_all(&archive).unwrap();
    let mut offsets: Vec<u64> = reader.entries.iter().map(|e| e.frame_offset).collect();
    offsets.dedup();
    reader
        .entries
        .iter()
        .map(|e| (offsets.iter().position(|o| *o == e.frame_offset).unwrap(), e.block_offset))
        .collect()
}

#[test]
fn shared_frames_keep_to_their_target() {
    for step in [0, 1, 4, 100] {
        assert_eq!(places(10, &[6, 6], step), vec![(0, 0), (1, 0)]);
        assert_eq!(places(10, &[6, 4, 1], step), vec![(0, 0), (0, 6), (1, 0)]);
        assert_eq!(places(10, &[3, 3, 3, 3], step), vec![(0, 0), (0, 3), (0, 6), (1, 0)]);
        assert_eq!(places(10, &[6, 0, 5], step), vec![(0, 0), (0, 6), (1, 0)]);
        assert_eq!(places(10, &[0, 0, 10], step), vec![(0, 0), (0, 0), (0, 0)]);
    }
}

#[test]
fn only_a_larger_file_exceeds_the_target() {
    for step in [0, 1, 7, 100] {
        assert_eq!(places(10, &[25, 1], step), vec![(0, 0), (1, 0)]);
        assert_eq!(places(10, &[4, 25, 4], step), vec![(0, 0), (1, 0), (2, 0)]);
        assert_eq!(places(0, &[1, 1, 0, 0], step), vec![(0, 0), (1, 0), (2, 0), (3, 0)]);
    }
}

#[test]
fn files_given_up_leave_the_frame_as_it_was() {
    let mode = WriterMode::Solid { target_bytes: 10 };
    let mut w = Writer::new(9, None, 0, false, mode, None).unwrap();
    w.add_file("empty", 1, 2, 3, b"").unwrap();
    w.begin_file("first", 1, 2, 3).unwrap();
    w.write_chunk(b"gone").unwrap();
    w.abort_file();
    w.add_file("kept", 1, 2, 3, b"abc").unwrap();
    w.begin_file("held", 1, 2, 3).unwrap();
    w.write_chunk(b"gone").unwrap();
    w.add_file("also", 1, 2, 3, b"defghij").unwrap();
    w.begin_file("last", 1, 2, 3).unwrap();
    w.write_chunk(b"gone").unwrap();
    let archive = w.finish().unwrap();
    let reader = Reader::open(&archive, no_password).unwrap();
    let e = &reader.entries;
    assert_eq!(e.len(), 3);
    assert_eq!((e[1].block_offset, e[2].block_offset), (0, 3));
    assert_eq!(e[0].frame_offset, e[1].frame_offset);
    assert_eq!(e[1].frame_offset, e[2].frame_offset);
    let stored = archive[32..32 + e[1].frame_compressed_size as usize].to_vec();
    assert_eq!(reader.decode_frame(stored).unwrap(), b"abcdefghij");
    reader.verify_all(&archive).unwrap();
}

#[test]
fn frames_of_single_files_leave_no_gaps() {
    for (enc, start) in [(None, 32), (lock(), 72)] {
        let archive = build(WriterMode::PerFile, 0, false, enc);
        let reader = Reader::open(&archive, || Ok("secret".to_string())).unwrap();
        let mut end: u64 = start;
        for e in reader.entries.iter().filter(|e| e.kind == EntryKind::File) {
            assert_eq!(e.frame_offset, end);
            assert_eq!(e.block_offset, 0);
            assert!(e.frame_compressed_size > 0);
            end += e.frame_compressed_size;
        }
        assert_eq!(reader.footer.index_offset, end);
    }
}

#[test]
fn packing_does_not_change_what_is_handed_out() {
    let walk = |archive: Vec<u8>| {
        let reader = Reader::open(&archive, || Ok("secret".to_string())).unwrap();
        let mut delivered = Vec::new();
        reader.for_each_file(&archive, &mut delivered).unwrap();
        delivered
    };
    let first = walk(build(WriterMode::PerFile, 0, false, None));
    assert_eq!(first, contents());
    for target_bytes in [0, 1, 1000, 1 << 30] {
        let mode = WriterMode::Solid { target_bytes };
        assert_eq!(walk(build(mode, 0, true, None)), first);
        assert_eq!(walk(build(mode, 0, false, lock())), first);
    }
}

#[test]
fn long_range_and_workers_read_back() {
    let archive = build(WriterMode::PerFile, 2, true, None);
    check(&archive, &Reader::open(&archive, no_password).unwrap());
    let archive = build(WriterMode::Solid { target_bytes: 0 }, 1, true, None);
    check(&archive, &Reader::open(&archive, no_password).unwrap());
}

#[test]
fn encrypted_archives_read_back_with_the_password() {
    for mode in [WriterMode::PerFile, WriterMode::Solid { target_bytes: 5000 }] {
        let archive = build(mode, 0, false, lock());
        let (header, eh) = Reader::probe(&archive).unwrap();
        assert!(header.encrypted());
        assert_eq!(eh.unwrap().argon2, QUICK);
        let reader = Reader::open(&archive, || Ok("secret".to_string())).unwrap();
        check(&archive, &reader);
        assert!(matches!(
            Reader::open(&archive, || Ok("Secret".to_string())),
            Err(Error::WrongPasswordOrTampered)
        ));
        assert!(matches!(
            Reader::open(&archive, || Err(Error::PasswordRequired)),
            Err(Error::PasswordRequired)
        ));
    }
}

#[test]
fn empty_archive_reads_back() {
    let w = Writer::new(0, None, 0, false, WriterMode::default(), None).unwrap();
    let archive = w.finish().unwrap();
    assert_eq!(archive.len(), 32 + 4 + 32);
    let reader = Reader::open(&archive, no_password).unwrap();
    assert!(reader.entries.is_empty());
    assert_eq!(reader.footer.index_offset, 32);
    assert_eq!(reader.footer.index_size, 4);
    reader.verify_all(&archive).unwrap();
}

#[test]
fn output_can_be_taken_piece_by_piece() {
    let mut w = Writer::new(9, None, 0, false, WriterMode::PerFile, None).unwrap();
    let mut archive = w.take_output();
    assert_eq!(archive.len(), 32);
    w.begin_file("f", 1, 2, 3).unwrap();
    w.write_chunk(b"hello ").unwrap();
    w.write_chunk(b"").unwrap();
    w.write_chunk(b"world").unwrap();
    w.end_file().unwrap();
    archive.extend(w.take_output());
    assert!(w.take_output().is_empty());
    w.add_dir("d", 1, 2, 3).unwrap();
    archive.extend(w.finish().unwrap());
    let reader = Reader::open(&archive, no_password).unwrap();
    let mut out = Vec::new();
    assert_eq!(reader.extract_entry(&archive, 0, &mut out).unwrap(), 11);
    assert_eq!(out, b"hello world");
    assert_eq!(reader.entries.len(), 2);
}

#[test]
fn given_up_files_leave_no_entry() {
    for mode in [WriterMode::PerFile, WriterMode::Solid { target_bytes: 1 << 20 }] {
        let mut w = Writer::new(9, None, 0, false, mode, None).unwrap();
        w.begin_file("gone", 1, 2, 3).unwrap();
        w.write_chunk(b"partial").unwrap();
        w.abort_file();
        w.begin_file("gone too", 1, 2, 3).unwrap();
        w.add_file("kept", 1, 2, 3, b"content").unwrap();
        w.begin_file("unfinished", 1, 2, 3).unwrap();
        let archive = w.finish().unwrap();
        let reader = Reader::open(&archive, no_password).unwrap();
        assert_eq!(reader.entries.len(), 1);
        let mut out = Vec::new();
        reader.extract_entry(&archive, 0, &mut out).unwrap();
        assert_eq!(out, b"content");
        reader.verify_all(&archive).unwrap();
    }
}

#[test]
fn bad_paths_are_refused_and_nothing_is_added() {
    let mut w = Writer::new(9, None, 0, false, WriterMode::PerFile, None).unwrap();
    assert!(matches!(w.add_file("../x", 1, 2, 3, b"a"), Err(Error::InvalidPath(_))));
    assert!(matches!(w.add_dir("/x", 1, 2, 3), Err(Error::InvalidPath(_))));
    assert!(matches!(w.add_symlink("", "t", 2, 3), Err(Error::InvalidPath(_))));
    assert!(matches!(w.begin_file("a\\b", 1, 2, 3), Err(Error::InvalidPath(_))));
    assert_eq!(w.finish().unwrap().len(), 68);
}

#[test]
fn too_long_a_path_fails_at_the_end() {
    let mut w = Writer::new(9, None, 0, false, WriterMode::PerFile, None).unwrap();
    w.add_dir(&"x".repeat(65536), 1, 2, 3).unwrap();
    match w.finish() {
        Err(Error::InvalidPath(text)) => assert_eq!(text, "path too long (65536 bytes)"),
        other => panic!("{:?}", other.is_ok()),
    }
}

#[test]
fn frames_are_visited_in_order_of_first_appearance() {
    let mut w = Writer::new(9, None, 0, false, WriterMode::Solid { target_bytes: 4 }, None).unwrap();
    for (path, content) in [("a", "xx"), ("b", "yy"), ("c", "zzzz"), ("e", "w")] {
        w.add_file(path, 1, 2, 3, content.as_bytes()).unwrap();
    }
    let archive = w.finish().unwrap();
    let reader = Reader::open(&archive, no_password).unwrap();
    let groups = frame_groups(&reader.entries);
    let shape: Vec<(usize, Vec<usize>)> = groups.into_iter().map(|g| (g.first, g.members)).collect();
    assert_eq!(shape, vec![(0, vec![0, 1]), (2, vec![2]), (3, vec![3])]);
    let mut entries = reader.entries.clone();
    entries.swap(0, 1);
    entries.swap(0, 3);
    let shape: Vec<(usize, Vec<usize>)> =
        frame_groups(&entries).into_iter().map(|g| (g.first, g.members)).collect();
    assert_eq!(shape, vec![(0, vec![0]), (1, vec![1, 3]), (2, vec![2])].into_iter().collect::<Vec<_>>());
}

#[test]
fn decoded_frames_yield_their_files() {
    let archive = build(WriterMode::Solid { target_bytes: 1 << 30 }, 0, false, None);
    let reader = Reader::open(&archive, no_password).unwrap();
    let e = &reader.entries[4];
    let start = e.frame_offset as usize;
    let stored = archive[start..start + e.frame_compressed_size as usize].to_vec();
    let data = reader.decode_frame(stored).unwrap();
    assert_eq!(data.len(), 301_000);
    assert_eq!(content_in(e, &data).unwrap(), &text(300_000)[..]);
    assert_eq!(content_in(&reader.entries[1], &data).unwrap(), &text(1000)[..]);
}

#[test]
fn frames_made_elsewhere_are_stored_as_they_are() {
    let mut w = Writer::new(9, None, 0, false, WriterMode::PerFile, None).unwrap();
    let failed = || std::io::Error::new(std::io::ErrorKind::Other, "no");
    assert!(matches!(
        w.add_packed("x".to_string(), 1, 2, 3, 4, 5, Err(failed())),
        Err(Error::Io(hangar::error::IoFault::Source(_)))
    ));
    let packed = zstd::stream::encode_all(&b"abc"[..], 1).unwrap();
    let size = packed.len() as u64;
    let hash = xxhash_rust::xxh3::xxh3_64(b"abc");
    w.add_packed("y".to_string(), 1, 2, 3, 3, hash, Ok(packed.clone())).unwrap();
    assert!(w.settle_packed(&vec![0], Err(failed())).is_err());
    let archive = w.finish().unwrap();
    assert_eq!(&archive[32..32 + packed.len()], &packed[..]);
    let reader = Reader::open(&archive, no_password).unwrap();
    assert_eq!(reader.entries.len(), 1);
    assert_eq!(reader.entries[0].frame_compressed_size, size);
    let mut out = Vec::new();
    assert_eq!(reader.extract_entry(&archive, 0, &mut out).unwrap(), 3);
    assert_eq!(out, b"abc");
}

#[test]
fn frames_of_other_encoders_are_read_as_far_as_they_are_asked_for() {
    // A window of 256 MB, two bytes of content in one block that is not compressed.
    let frame = vec![0x28, 0xB5, 0x2F, 0xFD, 0x80, 0x90, 2, 0, 0, 0, 0x11, 0, 0, 0x61, 0x62];
    let mut w = Writer::new(9, None, 0, false, WriterMode::PerFile, None).unwrap();
    let hash = xxhash_rust::xxh3::xxh3_64(b"ab");
    w.add_packed("y".to_string(), 1, 2, 3, 2, hash, Ok(frame)).unwrap();
    let archive = w.finish().unwrap();
    let mut reader = Reader::open(&archive, no_password).unwrap();
    let mut out = Vec::new();
    assert_eq!(reader.extract_entry(&archive, 0, &mut out).unwrap(), 2);
    assert_eq!(out, b"ab");
    reader.entries[0].block_offset = 1;
    reader.entries[0].uncompressed_size = 1;
    reader.entries[0].content_xxh3 = xxhash_rust::xxh3::xxh3_64(b"b");
    assert!(matches!(
        reader.extract_entry(&archive, 0, &mut out),
        Err(Error::Io(hangar::error::IoFault::Source(_)))
    ));
    assert_eq!(out, b"ab");
}

#[test]
fn walk_frame_by_frame_hands_out_the_same() {
    for mode in [WriterMode::PerFile, WriterMode::Solid { target_bytes: 1000 }] {
        let mut archive = build(mode, 0, false, lock());
        let reader = Reader::open(&archive, || Ok("secret".to_string())).unwrap();
        for broken in [false, true] {
            if broken {
                let e = &reader.entries[4];
                archive[(e.frame_offset + e.frame_compressed_size) as usize - 1] ^= 1;
            }
            let mut delivered = Vec::new();
            let whole = reader.for_each_file(&archive, &mut delivered);
            let mut fetched = Vec::new();
            let mut walk = reader.start_walk();
            let mut outcome = Ok(());
            while let Some((offset, size)) = reader.next_frame(&walk, archive.len() as u64).unwrap() {
                let stored = archive[offset as usize..(offset + size) as usize].to_vec();
                outcome = reader.take_frame(&mut walk, stored, &mut fetched);
                if outcome.is_err() {
                    break;
                }
            }
            assert_eq!(fetched, delivered);
            let before_the_last = if mode == WriterMode::PerFile { 2 } else { 1 };
            assert_eq!(fetched.len(), if broken { before_the_last } else { 3 });
            assert_eq!(whole.is_ok(), !broken);
            assert_eq!(outcome.is_ok(), !broken);
        }
    }
}

#[test]
fn walk_frame_by_frame_stops_at_a_frame_beyond_the_end() {
    let archive = build(WriterMode::PerFile, 0, false, None);
    let mut reader = Reader::open(&archive, no_password).unwrap();
    reader.entries[1].frame_compressed_size = 0;
    reader.entries[3].frame_compressed_size = 1 << 40;
    let mut walk = reader.start_walk();
    let total = archive.len() as u64;
    assert_eq!(reader.next_frame(&walk, total).unwrap(), Some((0, 0)));
    let mut files = Vec::new();
    assert!(matches!(
        reader.take_frame(&mut walk, Vec::new(), &mut files),
        Err(Error::Io(hangar::error::IoFault::Source(_)))
    ));
    assert!(files.is_empty());
    assert!(matches!(
        reader.next_frame(&walk, total),
        Err(Error::Io(hangar::error::IoFault::UnexpectedEof))
    ));
}

#[test]
fn a_file_given_up_late_leaves_the_others_whole() {
    for mode in [WriterMode::PerFile, WriterMode::Solid { target_bytes: 1000 }] {
        for enc in [None, lock()] {
            let mut w = Writer::new(9, None, 0, false, mode, enc).unwrap();
            w.add_file("one", 1, 2, 3, &text(600)).unwrap();
            w.begin_file("gone", 1, 2, 3).unwrap();
            for piece in text(5000).chunks(90) {
                w.write_chunk(piece).unwrap();
            }
            w.abort_file();
            w.add_file("two", 1, 2, 3, &text(700)).unwrap();
            let archive = w.finish().unwrap();
            let reader = Reader::open(&archive, || Ok("secret".to_string())).unwrap();
            let paths: Vec<&str> = reader.entries.iter().map(|e| e.path.as_str()).collect();
            assert_eq!(paths, vec!["one", "two"]);
            let mut delivered = Vec::new();
            reader.for_each_file(&archive, &mut delivered).unwrap();
            assert_eq!(delivered, vec![(0, text(600)), (1, text(700))]);
        }
    }
}

#[test]
fn a_tree_comes_back() {
    let mut w = Writer::new(9, None, 0, false, WriterMode::default(), None).unwrap();
    w.add_dir("t", 1, 2, 3).unwrap();
    w.add_file("t/a/b", 1, 2, 3, b"deep").unwrap();
    w.add_symlink("t/l", "a/b", 2, 3).unwrap();
    w.add_dir("t/empty", 1, 2, 3).unwrap();
    let archive = w.finish().unwrap();
    let reader = Reader::open(&archive, no_password).unwrap();
    let mut tree: BTreeMap<String, String> = BTreeMap::new();
    for e in &reader.entries {
        match restore_step(e) {
            RestoreStep::MakeDir => tree.insert(e.path.clone(), "dir".to_string()),
            RestoreStep::MakeLink(target) => tree.insert(e.path.clone(), format!("link {}", target)),
            RestoreStep::Later => None,
        };
    }
    let mut delivered = Vec::new();
    reader.for_each_file(&archive, &mut delivered).unwrap();
    for (i, content) in delivered {
        let content = String::from_utf8(content).unwrap();
        tree.insert(reader.entries[i].path.clone(), format!("file {}", content));
    }
    let found: Vec<(&str, &str)> = tree.iter().map(|(p, n)| (p.as_str(), n.as_str())).collect();
    assert_eq!(
        found,
        vec![("t", "dir"), ("t/a/b", "file deep"), ("t/empty", "dir"), ("t/l", "link a/b")]
    );
}

#[test]
fn level_of_the_writer_reaches_the_compressor() {
    let build_at = |level: i32| {
        let mut w = Writer::new(9, Some(level), 0, false, WriterMode::PerFile, None).unwrap();
        w.add_file("f", 1, 2, 3, &text(200_000)).unwrap();
        w.finish().unwrap()
    };
    let frame = |level: i32| {
        let mut out = Vec::new();
        zstd::stream::copy_encode(&text(200_000)[..], &mut out, level).unwrap();
        out
    };
    for level in [1, 19] {
        let archive = build_at(level);
        let expected = frame(level);
        assert_eq!(&archive[32..32 + expected.len()], &expected[..]);
    }
    assert_ne!(build_at(1).len(), build_at(19).len());
}

#[test]
fn unfinished_archive_does_not_open() {
    let mut w = Writer::new(9, None, 0, false, WriterMode::PerFile, None).unwrap();
    w.add_file("f", 1, 2, 3, &text(1000)).unwrap();
    assert!(Reader::open(&w.take_output(), no_password).is_err());
}
