use hangar::bytes;
use hangar::clock::{mtime_parts, now_unix_seconds};
use hangar::codec::{CountingWriter, HashingReader};
use hangar::error::{err_code, IoFault};
use hangar::job::{
    settings_note, walk_step, writer_mode, Job, Summary, Tally, Ticker, WalkStep, PROGRESS_CHUNK,
};
use hangar::listing::{
    kind_label, list_entries, list_head, list_row, pad_left, restore_step, restored_mode,
    total_file_bytes, total_files, total_uncompressed, RestoreStep,
};
use hangar::naming::{archive_path, NamingFault, PartKind, PathPart};
use hangar::password::{check_new_password, first_password_line, provide_password, wants_encryption};
use hangar::path::validate_archive_path;
use hangar::report::{compress_outcome, extract_outcome, message, must_remove, ErrorPayload};
use hangar::text::{chars_of, decimal, joined};
use hangar::writer::{file_entry, settle};
use hangar::{Entry, EntryKind, Error, WriterMode};

fn path_text(p: &str) -> String {
    match validate_archive_path(p) {
        Err(Error::InvalidPath(text)) => text,
        other => panic!("{:?}", other),
    }
}

#[test]
fn paths_that_climb_or_start_at_the_root_are_refused() {
    assert_eq!(path_text(""), "empty path");
    assert_eq!(path_text("/etc"), "absolute path: /etc");
    assert_eq!(path_text("a\\b"), "backslash in path: a\\b");
    assert_eq!(path_text("../a"), "'..' segment in path: ../a");
    assert_eq!(path_text("a/.."), "'..' segment in path: a/..");
    assert_eq!(path_text("a/../b"), "'..' segment in path: a/../b");
    assert_eq!(path_text(".."), "'..' segment in path: ..");
    for p in ["a", "a/b", "...", "..a", "a..", "a/..b/c", "a//b", "a/", ".", "\u{e9}/x"] {
        validate_archive_path(p).unwrap();
    }
}

#[test]
fn numbers_and_texts() {
    assert_eq!(decimal(0), "0");
    assert_eq!(decimal(1234567890), "1234567890");
    assert_eq!(decimal(u64::MAX), "18446744073709551615");
    assert_eq!(joined("a", "b"), "ab");
    assert_eq!(chars_of("a\u{e9}"), vec!['a', '\u{e9}']);
    let mut out = Vec::new();
    bytes::put_u16(&mut out, 0x0102);
    bytes::put_u32(&mut out, 0x03040506);
    bytes::put_u64(&mut out, 0x0708090A0B0C0D0E);
    bytes::put_i64(&mut out, i64::MIN);
    assert_eq!(
        out,
        vec![2, 1, 6, 5, 4, 3, 0xE, 0xD, 0xC, 0xB, 0xA, 9, 8, 7, 0, 0, 0, 0, 0, 0, 0, 0x80]
    );
    assert_eq!(bytes::get_u16(&out, 0), 0x0102);
    assert_eq!(bytes::get_u32(&out, 2), 0x03040506);
    assert_eq!(bytes::get_u64(&out, 6), 0x0708090A0B0C0D0E);
    assert_eq!(bytes::get_i64(&out, 14), i64::MIN);
}

#[test]
fn times_before_1970_are_zero() {
    assert_eq!(now_unix_seconds(None), 0);
    assert_eq!(now_unix_seconds(Some(1_700_000_000)), 1_700_000_000);
    assert_eq!(now_unix_seconds(Some(u64::MAX)), -1);
    assert_eq!(now_unix_seconds(Some(1 << 63)), i64::MIN);
    assert_eq!(mtime_parts(None), (0, 0));
    assert_eq!(mtime_parts(Some((5, 6))), (5, 6));
}

#[test]
fn first_line_of_a_password_file() {
    assert_eq!(first_password_line("hunter2\nrest").unwrap(), "hunter2");
    assert_eq!(first_password_line("hunter2\r\nrest").unwrap(), "hunter2");
    assert_eq!(first_password_line("only").unwrap(), "only");
    assert_eq!(first_password_line("only\r").unwrap(), "only\r");
    assert_eq!(first_password_line("a\r\r\n").unwrap(), "a\r");
    assert_eq!(first_password_line(" \n").unwrap(), " ");
    for raw in ["", "\n", "\r\n", "\nsecond"] {
        match first_password_line(raw) {
            Err(Error::Crypto(text)) => assert_eq!(text, "password file is empty"),
            other => panic!("{:?}", other),
        }
    }
}

#[test]
fn new_passwords_are_checked() {
    let (a, b, none) = ("a".to_string(), "b".to_string(), String::new());
    assert_eq!(check_new_password(&none, None), Some("password must not be empty"));
    assert_eq!(check_new_password(&none, Some(&none)), Some("password must not be empty"));
    assert_eq!(check_new_password(&a, None), None);
    assert_eq!(check_new_password(&a, Some(&b)), Some("passwords do not match"));
    assert_eq!(check_new_password(&a, Some(&a.clone())), None);
    assert!(matches!(provide_password(""), Err(Error::PasswordRequired)));
    assert_eq!(provide_password("x").unwrap(), "x");
    assert!(wants_encryption(Some("x")));
    assert!(!wants_encryption(Some("")));
    assert!(!wants_encryption(None));
}

fn parts(p: &str) -> Vec<PathPart> {
    let mut out = Vec::new();
    if p.starts_with('/') {
        out.push(PathPart { kind: PartKind::RootDir, name: b"/".to_vec() });
    }
    for c in p.split('/') {
        if !c.is_empty() {
            out.push(PathPart { kind: PartKind::Normal, name: c.as_bytes().to_vec() });
        }
    }
    out
}

#[test]
fn roots_become_the_top_of_the_archive() {
    assert_eq!(archive_path(&parts("/x/foo/bar"), &parts("/x/foo/bar")).unwrap(), "bar");
    assert_eq!(archive_path(&parts("/x/foo/bar"), &parts("/x/foo/bar/a/b")).unwrap(), "bar/a/b");
    assert_eq!(archive_path(&parts("/bar"), &parts("/bar/c")).unwrap(), "bar/c");
    assert_eq!(archive_path(&parts("bar"), &parts("bar/c")).unwrap(), "bar/c");
    assert_eq!(archive_path(&parts("/"), &parts("/")), Err(NamingFault::NoFileName));
    assert_eq!(archive_path(&parts("/"), &parts("/a")).unwrap(), "//a");
    assert_eq!(archive_path(&parts("/x/y"), &parts("/z/y")), Err(NamingFault::NotBelow));
    assert_eq!(archive_path(&parts("/x/y/z"), &parts("/x")), Err(NamingFault::NotBelow));
    let mut odd = parts("/x/y");
    odd.push(PathPart { kind: PartKind::Normal, name: vec![0xFF] });
    assert_eq!(archive_path(&parts("/x/y"), &odd), Err(NamingFault::NotUtf8));
}

#[test]
fn names_of_files_are_accepted_paths_and_differ() {
    let root = parts("/x/foo");
    let below = ["", "a", "a/b", "a.b", "...", ".", "a/..b", "ab"];
    let mut names: Vec<String> = Vec::new();
    for path in below {
        let name = archive_path(&root, &parts(&format!("/x/foo/{}", path))).unwrap();
        validate_archive_path(&name).unwrap();
        assert!(!names.contains(&name));
        names.push(name);
    }
    assert_eq!(names[0], "foo");
    assert_eq!(names[6], "foo/a/..b");
    let odd = archive_path(&root, &parts("/x/foo/a\\b")).unwrap();
    assert_eq!(path_text(&odd), "backslash in path: foo/a\\b");
}

fn entry(kind: EntryKind, size: u64) -> Entry {
    Entry {
        path: "p/q".to_string(),
        kind,
        mode: 0o644,
        mtime_sec: 0,
        mtime_nsec: 0,
        uncompressed_size: size,
        frame_compressed_size: 12,
        frame_offset: 345,
        block_offset: 0,
        content_xxh3: 0,
        link_target: None,
    }
}

#[test]
fn listings_are_aligned() {
    let head = format!("{:>12}  {:>12}  {:>5}  {:>10}  {}", "size", "frame_size", "kind", "frame@", "path");
    assert_eq!(list_head(), head);
    let row = format!("{:>12}  {:>12}  {:>5}  {:>10}  {}", 678, 12, "file", 345, "p/q");
    assert_eq!(list_row(&entry(EntryKind::File, 678)), row);
    assert_eq!(kind_label(EntryKind::Dir), "dir");
    assert_eq!(kind_label(EntryKind::Symlink), "link");
    assert_eq!(pad_left("abc", 5), "  abc");
    assert_eq!(pad_left("abcdef", 5), "abcdef");
}

#[test]
fn totals_of_a_listing() {
    let entries = vec![entry(EntryKind::File, 5), entry(EntryKind::Dir, 7), entry(EntryKind::File, 6)];
    assert_eq!(total_uncompressed(&entries), Some(18));
    assert_eq!(total_file_bytes(&entries), Some(11));
    assert_eq!(total_files(&entries), 2);
    let items = list_entries(&entries);
    assert_eq!(items.len(), 3);
    assert_eq!((items[1].path.as_str(), items[1].kind.as_str(), items[1].size), ("p/q", "dir", 7));
    assert_eq!((items[1].frame_size, items[1].frame_offset), (12, 345));
    let huge = vec![entry(EntryKind::Dir, u64::MAX), entry(EntryKind::File, 1)];
    assert_eq!(total_uncompressed(&huge), None);
    assert_eq!(total_file_bytes(&huge), Some(1));
}

#[test]
fn directories_and_links_come_first() {
    assert!(matches!(restore_step(&entry(EntryKind::Dir, 0)), RestoreStep::MakeDir));
    assert!(matches!(restore_step(&entry(EntryKind::File, 0)), RestoreStep::Later));
    let mut link = entry(EntryKind::Symlink, 0);
    assert!(matches!(restore_step(&link), RestoreStep::MakeLink(t) if t.is_empty()));
    link.link_target = Some("there".to_string());
    assert!(matches!(restore_step(&link), RestoreStep::MakeLink(t) if t == "there"));
    assert_eq!(restored_mode(&link), Some(0o644));
    link.mode = 0;
    assert_eq!(restored_mode(&link), None);
}

#[test]
fn messages_and_codes() {
    let cases: Vec<(Error, &str, &str)> = vec![
        (Error::Io(IoFault::UnexpectedEof), "errIo", "io error: failed to fill whole buffer"),
        (Error::Io(IoFault::TooLarge), "errIo", "io error: archive exceeds 64-bit offsets"),
        (Error::BadMagic, "errBadMagic", "not a hangar archive (bad magic)"),
        (
            Error::UnsupportedVersion { major: 2, minor: 10 },
            "errUnsupportedVersion",
            "unsupported archive version 2.10 (this build supports 1.x)",
        ),
        (Error::Corrupt("x"), "errCorrupt", "archive is truncated or corrupted: x"),
        (Error::IndexChecksum, "errIndexChecksum", "index checksum mismatch"),
        (
            Error::ContentChecksum { path: "f".to_string() },
            "errContentChecksum",
            "entry content checksum mismatch for f",
        ),
        (Error::InvalidPath("y".to_string()), "errInvalidPath", "invalid path: y"),
        (
            Error::Utf8(String::from_utf8(vec![0xFF]).unwrap_err()),
            "errUtf8",
            "invalid utf-8 in archive metadata",
        ),
        (Error::PasswordRequired, "errPasswordRequired", "archive is encrypted; a password is required"),
        (
            Error::WrongPasswordOrTampered,
            "errWrongPassword",
            "wrong password, or the archive has been tampered with",
        ),
        (Error::Crypto("z".to_string()), "errCrypto", "crypto error: z"),
    ];
    for (e, code, text) in cases {
        assert_eq!(err_code(&e), code);
        assert_eq!(message(&e), text);
        let p = ErrorPayload::of(&e);
        assert_eq!((p.code.as_str(), p.message.as_str()), (code, text));
    }
    let source = Error::Io(IoFault::Source(std::io::Error::new(std::io::ErrorKind::Other, "boom")));
    assert_eq!(message(&source), "io error: boom");
    assert_eq!(err_code(&source), "errIo");
}

#[test]
fn payloads() {
    let p = ErrorPayload::generic("m".to_string());
    assert_eq!((p.code.as_str(), p.message.as_str()), ("errGeneric", "m"));
    let p = ErrorPayload::coded("c", "m".to_string());
    assert_eq!((p.code.as_str(), p.message.as_str()), ("c", "m"));
    let p = ErrorPayload::already_exists("a.hgr");
    assert_eq!((p.code.as_str(), p.message.as_str()), ("errAlreadyExists", "a.hgr already exists"));
}

#[test]
fn cancelled_operations_are_reported_as_such() {
    let fail = || -> Result<u8, ErrorPayload> { Err(ErrorPayload::generic("m".to_string())) };
    assert_eq!(compress_outcome(fail(), true).unwrap_err().code, "errCancelled");
    assert_eq!(compress_outcome(fail(), false).unwrap_err().code, "errGeneric");
    assert_eq!(compress_outcome(Ok(1), true).unwrap(), 1);
    assert_eq!(extract_outcome::<u8>(Ok(1), true).unwrap_err().message, "operation cancelled");
    assert_eq!(extract_outcome(fail(), false).unwrap_err().code, "errGeneric");
    assert_eq!(extract_outcome(Ok(2), false).unwrap(), 2);
    assert!(must_remove(true, true));
    assert!(!must_remove(false, true));
    assert!(!must_remove(true, false));
}

#[test]
fn packing_by_request() {
    assert_eq!(writer_mode(true, 7), WriterMode::Solid { target_bytes: 7 });
    assert_eq!(writer_mode(false, 7), WriterMode::PerFile);
    assert_eq!(settings_note(true, true, 64 * 1024 * 1024), ", long, solid 64MB");
    assert_eq!(settings_note(false, true, 1), ", solid 0MB");
    assert_eq!(settings_note(true, false, 1), ", long");
    assert_eq!(settings_note(false, false, 1), "");
    assert_eq!(walk_step(true, true, true), WalkStep::AddDir);
    assert_eq!(walk_step(false, true, true), WalkStep::AddLink);
    assert_eq!(walk_step(false, false, true), WalkStep::AddFile);
    assert_eq!(walk_step(false, false, false), WalkStep::Skip);
}

#[test]
fn progress_is_told_every_threshold() {
    let mut t = Ticker::new(10);
    assert_eq!(t.advance(9), None);
    assert_eq!(t.advance(1), Some(10));
    assert_eq!(t.advance(9), None);
    assert_eq!(t.advance(25), Some(44));
    assert_eq!(t.advance(0), None);
    let mut always = Ticker::new(0);
    assert_eq!(always.advance(0), Some(0));
}

#[test]
fn tallies_stop_at_64_bits() {
    let mut t = Tally::new();
    assert!(t.count(5));
    assert!(t.count(u64::MAX - 5));
    assert!(!t.count(1));
    assert_eq!(t, Tally { files: 2, bytes: u64::MAX });
}

#[test]
fn job_tells_its_progress() {
    let total = Tally { files: 2, bytes: 3 * PROGRESS_CHUNK };
    let mut job = Job::new("compress", total);
    let p = job.started();
    assert_eq!((p.phase, p.current_bytes, p.total_bytes), ("compress", 0, 3 * PROGRESS_CHUNK));
    assert_eq!((p.current_file, p.files_done, p.files_total), (None, 0, 2));
    assert!(job.proceed(false).is_ok());
    assert_eq!(job.next(true, false, false), WalkStep::AddDir);
    assert_eq!(job.next(false, false, true), WalkStep::AddFile);
    assert!(job.read(false, "a", 100).unwrap().is_none());
    let p = job.read(false, "a", PROGRESS_CHUNK as usize).unwrap().unwrap();
    assert_eq!(p.current_bytes, PROGRESS_CHUNK + 100);
    assert_eq!(p.current_file.as_deref(), Some("a"));
    let p = job.file_done("a", PROGRESS_CHUNK + 100).unwrap();
    assert_eq!((p.current_bytes, p.files_done), (PROGRESS_CHUNK + 100, 1));
    assert_eq!(job.next(false, false, true), WalkStep::AddFile);
    let p = job.read(false, "b", PROGRESS_CHUNK as usize).unwrap().unwrap();
    assert_eq!((p.current_bytes, p.files_done), (2 * PROGRESS_CHUNK + 100, 1));
    assert_eq!(job.read(true, "b", 1).unwrap_err().code, "errCancelled");
    assert_eq!(job.proceed(true).unwrap_err().code, "errCancelled");
    assert!(job.file_done("b", u64::MAX).is_none());
    assert_eq!(
        job.summary(9),
        Summary { files: 1, bytes_in: PROGRESS_CHUNK + 100, bytes_out: 9 }
    );
}

#[test]
fn counting_writer_counts() {
    let mut w = CountingWriter::new(vec![1u8]);
    assert_eq!(w.write(&[2, 3]).unwrap(), 2);
    assert_eq!(w.bytes_written, 2);
    w.bytes_written = u64::MAX;
    assert!(matches!(w.write(&[4]), Err(Error::Io(IoFault::TooLarge))));
    assert_eq!(w.into_inner(), vec![1, 2, 3]);
    let mut r = CountingWriter::new(());
    r.record(7);
    assert_eq!(r.bytes_written, 7);
    assert_eq!(r.answered(Ok(5)).unwrap(), 5);
    assert_eq!(r.answered(Ok(0)).unwrap(), 0);
    let failed = std::io::Error::new(std::io::ErrorKind::Other, "full");
    assert_eq!(r.answered(Err(failed)).unwrap_err().to_string(), "full");
    assert_eq!(r.bytes_written, 12);
}

#[test]
fn hashing_reader_hashes_what_flows() {
    let mut r = HashingReader::new(());
    r.absorb(b"al");
    r.absorb(b"");
    r.absorb(b"pha");
    assert_eq!(r.finish(), (5, xxhash_rust::xxh3::xxh3_64(b"alpha")));
}

#[test]
fn pending_entries_learn_their_size() {
    let mut entries: Vec<Entry> = (0..4)
        .map(|i| file_entry(format!("f{}", i), 1, 2, 3, 4, 0, 6, 7, 8))
        .collect();
    settle(&mut entries, &vec![3, 1, 1], 99);
    let sizes: Vec<u64> = entries.iter().map(|e| e.frame_compressed_size).collect();
    assert_eq!(sizes, vec![0, 99, 0, 99]);
    assert_eq!((entries[0].path.as_str(), entries[0].uncompressed_size), ("f0", 4));
    assert_eq!((entries[0].frame_offset, entries[0].block_offset, entries[0].content_xxh3), (6, 7, 8));
}
