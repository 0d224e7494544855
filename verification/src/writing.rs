//! What writing an archive promises: what is listed of what was added, and that
//! all of it is read back.

use crate::archive;
use crate::assembly;
use crate::assembly::{Added, Body};
use crate::codec;
use crate::crypto::Encryption;
use crate::error;
use crate::error::{Error, ErrorView, IoFault, Result};
use crate::extract;
use crate::extract::Delivery;
use crate::format::EntryKind;
use crate::frame;
use crate::index;
use crate::index::{Entry, EntryView};
use crate::path::validate_archive_path;
use crate::reader;
use crate::reader::Reader;
use crate::writer;
use crate::writer::{file_entry, settle, Writer, WriterMode};
use vstd::prelude::*;

verus! {

/// Whether an entry says the same of what was added: everything but where and how
/// it is stored.
pub open spec fn says_the_same(a: EntryView, b: EntryView) -> bool {
    &&& a.path == b.path
    &&& a.kind == b.kind
    &&& a.mode == b.mode
    &&& a.mtime_sec == b.mtime_sec
    &&& a.mtime_nsec == b.mtime_nsec
    &&& a.uncompressed_size == b.uncompressed_size
    &&& a.content_xxh3 == b.content_xxh3
    &&& a.link_target == b.link_target
}

/// Whether a writer goes on with the same archive: the same headers, key, packing
/// and settings, with the same bytes handed out.
pub open spec fn goes_on(before: Writer, after: Writer) -> bool {
    &&& after.wf()
    &&& after.head() == before.head()
    &&& after.lock() == before.lock()
    &&& after.packing() == before.packing()
    &&& after.settings() == before.settings()
    &&& after.handed_out() == before.handed_out()
}

/// Entries with the same accounts say the same, in the same order.
pub proof fn law_same_accounts_say_the_same(a: Seq<EntryView>, b: Seq<EntryView>)
    ensures
        assembly::accounts(a) == assembly::accounts(b) <==> a.len() == b.len() && forall|i: int|
            #![trigger a[i]]
            0 <= i < a.len() ==> says_the_same(a[i], b[i]),
{
    let (x, y) = (assembly::accounts(a), assembly::accounts(b));
    assert(x.len() == a.len() && y.len() == b.len());
    if x == y {
        assert forall|i: int| #![trigger a[i]] 0 <= i < a.len() implies says_the_same(
            a[i],
            b[i],
        ) by {
            assert(x[i] == assembly::account(a[i]) && y[i] == assembly::account(b[i]));
        }
    }
    if a.len() == b.len() && forall|i: int| #![trigger a[i]]
        0 <= i < a.len() ==> says_the_same(a[i], b[i]) {
        assert forall|i: int| 0 <= i < x.len() implies x[i] == y[i] by {
            assert(says_the_same(a[i], b[i]));
        }
        assert(x =~= y);
    }
}

/// Whether a list of entries is another with one more behind it.
pub open spec fn lists_one_more(before: Seq<EntryView>, after: Seq<EntryView>) -> bool {
    &&& after.len() == before.len() + 1
    &&& forall|i: int| #![trigger after[i]]
        0 <= i < before.len() ==> says_the_same(after[i], before[i])
}

/// What grows by one thing lists it behind the others.
proof fn lemma_one_more(before: Writer, added: Added, after: Writer)
    requires
        before.grows(seq![added], after),
    ensures
        lists_one_more(before.listed(), after.listed()),
        assembly::account(after.listed().last()) == added.account,
        after.contents() == before.contents().push(added.content),
{
    let (was, is) = (before.listed(), after.listed());
    let (x, y) = (assembly::accounts(was), assembly::accounts(is));
    let one = assembly::accounts_of(seq![added]);
    assert(x.len() == was.len() && y.len() == is.len() && one.len() == 1);
    assert(y[was.len() as int] == one[0]);
    assert(y[was.len() as int] == assembly::account(is[was.len() as int]));
    assert forall|i: int| #![trigger is[i]] 0 <= i < was.len() implies says_the_same(
        is[i],
        was[i],
    ) by {
        assert(y[i] == x[i]);
        assert(y[i] == assembly::account(is[i]) && x[i] == assembly::account(was[i]));
    }
    assert(assembly::contents_of(seq![added]).len() == 1);
    assert(after.contents() =~= before.contents().push(added.content));
}

/// A file that was added is listed behind the others, with exactly the path, the
/// mode and the times that were given, and the size and the hash of its content;
/// its content is kept. What was listed before stays as it was. It is refused for
/// its path exactly where the path is.
pub proof fn law_added_file_is_listed(
    path: &str,
    mode: u32,
    mtime_sec: i64,
    mtime_nsec: u32,
    content: &[u8],
    valid: Result<()>,
)
    requires
        call_ensures(validate_archive_path, (path,), valid),
    ensures
        forall|w: &mut Writer, res: Result<()>| #[trigger]
            call_ensures(
                Writer::add_file,
                (w, path, mode, mtime_sec, mtime_nsec, content),
                res,
            ) ==> {
                let last = final(w).listed().last();
                &&& goes_on(*w, *final(w))
                &&& res is Ok ==> {
                    &&& lists_one_more(w.listed(), final(w).listed())
                    &&& last.path == path@
                    &&& last.kind == EntryKind::File
                    &&& last.mode == mode
                    &&& last.mtime_sec == mtime_sec
                    &&& last.mtime_nsec == mtime_nsec
                    &&& last.uncompressed_size == content@.len()
                    &&& last.content_xxh3 == codec::xxh3_of(content@)
                    &&& last.link_target is None
                    &&& final(w).contents() == w.contents().push(content@)
                    &&& w.sound() ==> final(w).sound()
                }
                &&& valid matches Err(e) ==> (res matches Err(x) && x@ == e@) && final(w).listed()
                    == w.listed() && final(w).contents() == w.contents() && final(w).stream()
                    == w.stream()
                &&& valid is Ok ==> (res matches Err(x) ==> x@ is Io || x@ is Crypto)
                &&& res is Err && w.packing() == WriterMode::PerFile ==> final(w).listed()
                    == w.listed() && final(w).stream() == w.stream()
            },
{
    assert(content.len() == content@.len());
    assert forall|w: &mut Writer, res: Result<()>| #[trigger]
        call_ensures(
            Writer::add_file,
            (w, path, mode, mtime_sec, mtime_nsec, content),
            res,
        ) implies {
        let last = final(w).listed().last();
        &&& goes_on(*w, *final(w))
        &&& res is Ok ==> {
            &&& lists_one_more(w.listed(), final(w).listed())
            &&& last.path == path@
            &&& last.kind == EntryKind::File
            &&& last.mode == mode
            &&& last.mtime_sec == mtime_sec
            &&& last.mtime_nsec == mtime_nsec
            &&& last.uncompressed_size == content@.len()
            &&& last.content_xxh3 == codec::xxh3_of(content@)
            &&& last.link_target is None
            &&& final(w).contents() == w.contents().push(content@)
            &&& w.sound() ==> final(w).sound()
        }
        &&& valid matches Err(e) ==> (res matches Err(x) && x@ == e@) && final(w).listed()
            == w.listed() && final(w).contents() == w.contents() && final(w).stream() == w.stream()
        &&& valid is Ok ==> (res matches Err(x) ==> x@ is Io || x@ is Crypto)
        &&& res is Err && w.packing() == WriterMode::PerFile ==> final(w).listed() == w.listed()
            && final(w).stream() == w.stream()
    } by {
        let file = w.begun(path@, mode, mtime_sec, mtime_nsec);
        assert(Seq::<u8>::empty() + content@ =~= content@);
        if res is Ok {
            lemma_one_more(
                *w,
                writer::added_file(assembly::fed_file(file, content@)),
                *final(w),
            );
        }
    }
}

/// A directory is added exactly under an accepted path, and is then listed behind
/// the others with what was given.
pub proof fn law_added_dir_is_listed(
    path: &str,
    mode: u32,
    mtime_sec: i64,
    mtime_nsec: u32,
    valid: Result<()>,
)
    requires
        call_ensures(validate_archive_path, (path,), valid),
    ensures
        forall|w: &mut Writer, res: Result<()>| #[trigger]
            call_ensures(Writer::add_dir, (w, path, mode, mtime_sec, mtime_nsec), res) ==> {
                let last = final(w).listed().last();
                &&& goes_on(*w, *final(w))
                &&& res is Ok <==> valid is Ok
                &&& res matches Err(e) ==> e@ == valid->Err_0@ && final(w).listed() == w.listed()
                    && final(w).contents() == w.contents()
                &&& res is Ok ==> {
                    &&& lists_one_more(w.listed(), final(w).listed())
                    &&& last.path == path@
                    &&& last.kind == EntryKind::Dir
                    &&& last.mode == mode
                    &&& last.mtime_sec == mtime_sec
                    &&& last.mtime_nsec == mtime_nsec
                    &&& last.uncompressed_size == 0
                    &&& last.link_target is None
                    &&& final(w).contents() == w.contents().push(Seq::empty())
                }
                &&& final(w).stream() == w.stream()
                &&& w.sound() ==> final(w).sound()
            },
{
}

/// A link is added exactly under an accepted path, and is then listed behind the
/// others with what was given: its target is the whole text of the target.
pub proof fn law_added_link_is_listed(
    path: &str,
    target: &str,
    mtime_sec: i64,
    mtime_nsec: u32,
    valid: Result<()>,
)
    requires
        call_ensures(validate_archive_path, (path,), valid),
    ensures
        forall|w: &mut Writer, res: Result<()>| #[trigger]
            call_ensures(Writer::add_symlink, (w, path, target, mtime_sec, mtime_nsec), res) ==> {
                let last = final(w).listed().last();
                &&& goes_on(*w, *final(w))
                &&& res is Ok <==> valid is Ok
                &&& res matches Err(e) ==> e@ == valid->Err_0@ && final(w).listed() == w.listed()
                    && final(w).contents() == w.contents()
                &&& res is Ok ==> {
                    &&& lists_one_more(w.listed(), final(w).listed())
                    &&& last.path == path@
                    &&& last.kind == EntryKind::Symlink
                    &&& last.link_target == Some(target@)
                    &&& last.mode == 0
                    &&& last.mtime_sec == mtime_sec
                    &&& last.mtime_nsec == mtime_nsec
                    &&& last.uncompressed_size == 0
                    &&& final(w).contents() == w.contents().push(Seq::empty())
                }
                &&& final(w).stream() == w.stream()
                &&& w.sound() ==> final(w).sound()
            },
{
}

/// A file that is added piece by piece is begun with what was given, takes in
/// every piece behind the others, and is listed in the end with what it was begun
/// with and the content that came in.
pub proof fn law_streamed_file_is_listed(
    path: &str,
    mode: u32,
    mtime_sec: i64,
    mtime_nsec: u32,
    chunk: &[u8],
    valid: Result<()>,
)
    requires
        call_ensures(validate_archive_path, (path,), valid),
    ensures
        forall|w: &mut Writer, res: Result<()>| #[trigger]
            call_ensures(Writer::begin_file, (w, path, mode, mtime_sec, mtime_nsec), res) ==> {
                &&& goes_on(*w, *final(w))
                &&& res is Ok <==> valid is Ok
                &&& res matches Err(e) ==> e@ == valid->Err_0@
                &&& final(w).listed() == w.listed() && final(w).contents() == w.contents()
                &&& res is Ok ==> (final(w).file() matches Some(f) && {
                    &&& f.path == path@
                    &&& f.mode == mode
                    &&& f.mtime_sec == mtime_sec
                    &&& f.mtime_nsec == mtime_nsec
                    &&& f.seen.len() == 0
                })
                &&& w.sound() ==> final(w).sound()
            },
        forall|w: &mut Writer, res: Result<()>| #[trigger]
            call_ensures(Writer::write_chunk, (w, chunk), res) && w.file() is Some ==> {
                &&& goes_on(*w, *final(w))
                &&& res is Ok ==> (final(w).file() matches Some(f) && {
                    &&& f.path == w.file()->Some_0.path
                    &&& f.mode == w.file()->Some_0.mode
                    &&& f.mtime_sec == w.file()->Some_0.mtime_sec
                    &&& f.mtime_nsec == w.file()->Some_0.mtime_nsec
                    &&& f.seen == w.file()->Some_0.seen + chunk@
                })
                &&& res is Err ==> final(w).file() is None
                &&& final(w).contents() == w.contents()
                &&& res is Ok && w.sound() ==> final(w).sound()
                &&& chunk@.len() == 0 ==> res is Ok
            },
        forall|w: &mut Writer, res: Result<()>| #[trigger]
            call_ensures(Writer::end_file, (w,), res) && w.file() is Some && res is Ok ==> {
                let (last, f) = (final(w).listed().last(), w.file()->Some_0);
                &&& goes_on(*w, *final(w))
                &&& final(w).file() is None
                &&& lists_one_more(w.listed(), final(w).listed())
                &&& last.path == f.path
                &&& last.kind == EntryKind::File
                &&& last.mode == f.mode
                &&& last.mtime_sec == f.mtime_sec
                &&& last.mtime_nsec == f.mtime_nsec
                &&& f.seen.len() <= u64::MAX ==> last.uncompressed_size == f.seen.len()
                &&& last.content_xxh3 == codec::xxh3_of(f.seen)
                &&& last.link_target is None
                &&& final(w).contents() == w.contents().push(f.seen)
                &&& w.sound() ==> final(w).sound()
            },
        forall|w: &mut Writer| #[trigger]
            call_ensures(Writer::abort_file, (w,), ()) ==> {
                &&& goes_on(*w, *final(w))
                &&& final(w).listed() == w.listed()
                &&& final(w).contents() == w.contents()
                &&& final(w).stream() == w.stream()
                &&& final(w).file() is None
                &&& w.sound() ==> final(w).sound()
            },
{
    assert forall|w: &mut Writer, res: Result<()>| #[trigger]
        call_ensures(Writer::write_chunk, (w, chunk), res) && w.file() is Some implies {
        &&& goes_on(*w, *final(w))
        &&& res is Ok ==> (final(w).file() matches Some(f) && {
            &&& f.path == w.file()->Some_0.path
            &&& f.mode == w.file()->Some_0.mode
            &&& f.mtime_sec == w.file()->Some_0.mtime_sec
            &&& f.mtime_nsec == w.file()->Some_0.mtime_nsec
            &&& f.seen == w.file()->Some_0.seen + chunk@
        })
        &&& res is Err ==> final(w).file() is None
        &&& final(w).contents() == w.contents()
        &&& res is Ok && w.sound() ==> final(w).sound()
        &&& chunk@.len() == 0 ==> res is Ok
    } by {}
    assert forall|w: &mut Writer, res: Result<()>| #[trigger]
        call_ensures(Writer::end_file, (w,), res) && w.file() is Some && res is Ok implies {
        let (last, f) = (final(w).listed().last(), w.file()->Some_0);
        &&& goes_on(*w, *final(w))
        &&& final(w).file() is None
        &&& lists_one_more(w.listed(), final(w).listed())
        &&& last.path == f.path
        &&& last.kind == EntryKind::File
        &&& last.mode == f.mode
        &&& last.mtime_sec == f.mtime_sec
        &&& last.mtime_nsec == f.mtime_nsec
        &&& f.seen.len() <= u64::MAX ==> last.uncompressed_size == f.seen.len()
        &&& last.content_xxh3 == codec::xxh3_of(f.seen)
        &&& last.link_target is None
        &&& final(w).contents() == w.contents().push(f.seen)
        &&& w.sound() ==> final(w).sound()
    } by {
        lemma_one_more(*w, writer::added_file(w.file()->Some_0), *final(w));
    }
}

/// A new archive has nothing in it but its headers: the version of this library,
/// the time that was given, and, exactly if it is encrypted, the salt and the
/// costs of its key. Its files are packed and compressed as was asked for.
pub proof fn law_new_archive(
    created_at: i64,
    level: Option<i32>,
    workers: u32,
    long_range: bool,
    mode: WriterMode,
    encryption: Option<Encryption>,
    res: Result<Writer>,
)
    requires
        call_ensures(
            Writer::new,
            (created_at, level, workers, long_range, mode, encryption),
            res,
        ),
    ensures
        res matches Ok(w) && {
            &&& w.wf()
            &&& w.sound()
            &&& w.listed().len() == 0
            &&& w.contents().len() == 0
            &&& w.handed_out().len() == 0
            &&& w.packing() == mode
            &&& w.lock() == encryption
            &&& w.head().0.created_at == created_at
            &&& w.head().0.version_major == 1
            &&& w.head().0.version_minor == 1
            &&& w.head().0.flags == if encryption is Some {
                1u32
            } else {
                0u32
            }
            &&& w.head().1 is Some <==> encryption is Some
            &&& encryption matches Some(enc) ==> {
                &&& w.head().1->Some_0.salt == enc.salt@
                &&& w.head().1->Some_0.argon2 == enc.argon2
            }
            &&& w.stream().len() == if encryption is Some {
                72int
            } else {
                32
            }
            &&& w.settings().0 == match level {
                Some(n) => n,
                None => 3i32,
            }
            &&& w.settings().1 == if long_range {
                Some(27u32)
            } else {
                None
            }
            &&& w.settings().2 == long_range
            &&& w.settings().3 == workers
        },
{
}

/// What is taken out of a writer piece by piece is what it has written, in its
/// order, and nothing twice.
pub proof fn law_output_is_taken_once()
    ensures
        forall|w: &mut Writer, chunk: Vec<u8>| #[trigger]
            call_ensures(Writer::take_output, (w,), chunk) ==> {
                &&& w.stream() == w.handed_out() + chunk@
                &&& final(w).handed_out() == w.handed_out() + chunk@
                &&& final(w).stream() == w.stream()
                &&& final(w).listed() == w.listed()
                &&& final(w).contents() == w.contents()
                &&& final(w).file() == w.file()
                &&& final(w).head() == w.head()
                &&& final(w).lock() == w.lock()
                &&& final(w).packing() == w.packing()
                &&& final(w).settings() == w.settings()
                &&& final(w).block() == w.block()
                &&& final(w).wf()
                &&& w.sound() ==> final(w).sound()
            },
{
}

/// Whether a reader lists what a writer listed: every entry, in its order, with
/// all that it says.
pub open spec fn lists_all(r: Reader, w: Writer) -> bool {
    &&& r.entries@.len() == w.listed().len()
    &&& forall|i: int| #![trigger r.entries@[i]]
        0 <= i < r.entries@.len() ==> {
            let (x, e) = (r.entries@[i], w.listed()[i]);
            &&& x.path@ == e.path
            &&& x.kind == e.kind
            &&& x.mode == e.mode
            &&& x.mtime_sec == e.mtime_sec
            &&& x.mtime_nsec == e.mtime_nsec
            &&& x.uncompressed_size == e.uncompressed_size
            &&& x.content_xxh3 == e.content_xxh3
            &&& match e.link_target {
                Some(target) => x.link_target matches Some(t) && t@ == target,
                None => x.link_target is None,
            }
        }
}

/// What finishing a writer leads to.
proof fn lemma_finished_archive(w: Writer, rest: Vec<u8>) -> (entries: Seq<EntryView>)
    requires
        w.wf(),
        w.sound(),
        call_ensures(Writer::finish, (w,), Ok(rest)),
    ensures
        archive::is_archive(
            w.handed_out() + rest@,
            w.head(),
            w.key(),
            entries,
            w.contents(),
        ),
        assembly::accounts(entries) == assembly::accounts(w.listed()),
        w.lies_right(w.handed_out() + rest@, entries),
{
    let last = choose|last: Body| #[trigger]
        assembly::finishes(w.key(), last, w.handed_out() + rest@) && assembly::ends_at(
            w.key(),
            w.body(),
            w.block_without_file(),
            last,
        ) && assembly::accounts(last.entries) == assembly::accounts(w.listed()) && (w.sound()
            ==> archive::is_archive(
            w.handed_out() + rest@,
            w.head(),
            w.key(),
            last.entries,
            w.contents(),
        ) && w.lies_right(w.handed_out() + rest@, last.entries));
    last.entries
}

/// A reader of a finished archive.
proof fn lemma_opened_lists(r: Reader, w: Writer, entries: Seq<EntryView>)
    requires
        r.listed() == entries,
        assembly::accounts(entries) == assembly::accounts(w.listed()),
    ensures
        lists_all(r, w),
{
    law_same_accounts_say_the_same(entries, w.listed());
    assert(r.listed().len() == r.entries@.len());
    assert forall|i: int| #![trigger r.entries@[i]] 0 <= i < r.entries@.len() implies {
        let (x, e) = (r.entries@[i], w.listed()[i]);
        &&& x.path@ == e.path
        &&& x.kind == e.kind
        &&& x.mode == e.mode
        &&& x.mtime_sec == e.mtime_sec
        &&& x.mtime_nsec == e.mtime_nsec
        &&& x.uncompressed_size == e.uncompressed_size
        &&& x.content_xxh3 == e.content_xxh3
        &&& match e.link_target {
            Some(target) => x.link_target matches Some(t) && t@ == target,
            None => x.link_target is None,
        }
    } by {
        assert(r.listed()[i] == r.entries@[i]@);
        assert(says_the_same(entries[i], w.listed()[i]));
    }
}

/// An archive that was finished without encryption opens, whatever password is at
/// hand, and lists everything that was added.
pub proof fn law_finished_archive_opens<F: FnOnce() -> Result<String>>(
    w: Writer,
    rest: Vec<u8>,
    archive: &[u8],
    provider: F,
    res: Result<Reader>,
)
    requires
        w.wf(),
        w.sound(),
        w.lock() is None,
        w.head().1 is None,
        call_ensures(Writer::finish, (w,), Ok(rest)),
        archive@ == w.handed_out() + rest@,
        call_ensures(Reader::open::<F>, (archive, provider), res),
    ensures
        res matches Ok(r) && lists_all(r, w) && r.header == w.head().0 && r.encryption is None,
{
    let entries = lemma_finished_archive(w, rest);
    reveal(archive::is_archive);
    lemma_opened_lists(res->Ok_0, w, entries);
}

/// An archive that was finished with encryption opens with the password that its
/// key was made of, and lists everything that was added.
pub proof fn law_encrypted_archive_opens<F: FnOnce() -> Result<String>>(
    w: Writer,
    rest: Vec<u8>,
    archive: &[u8],
    provider: F,
    password: String,
    res: Result<Reader>,
)
    requires
        w.wf(),
        w.sound(),
        w.lock() is Some,
        w.lock()->Some_0.unlocked_by(password@),
        w.head().1 is Some,
        w.head().1->Some_0.salt == w.lock()->Some_0.salt@,
        w.head().1->Some_0.argon2 == w.lock()->Some_0.argon2,
        call_ensures(Writer::finish, (w,), Ok(rest)),
        archive@ == w.handed_out() + rest@,
        forall|given: Result<String>| #[trigger]
            provider.ensures((), given) ==> (given matches Ok(p) && p@ == password@),
        call_ensures(Reader::open::<F>, (archive, provider), res),
    ensures
        res matches Ok(r) && lists_all(r, w) && r.header == w.head().0 && frame::key_of(
            r.encryption,
        ) == Some(w.lock()->Some_0.key@),
{
    let entries = lemma_finished_archive(w, rest);
    reveal(archive::is_archive);
    lemma_opened_lists(res->Ok_0, w, entries);
}

/// Each file of a finished archive is extracted with exactly the content that was
/// added for it.
pub proof fn law_extracts_what_was_added(
    w: Writer,
    rest: Vec<u8>,
    archive: &[u8],
    r: Reader,
    idx: usize,
)
    requires
        w.wf(),
        w.sound(),
        call_ensures(Writer::finish, (w,), Ok(rest)),
        archive@ == w.handed_out() + rest@,
        opened_of(w, archive@, r),
        idx < w.listed().len(),
    ensures
        forall|out: &mut Vec<u8>, res: Result<u64>| #[trigger]
            call_ensures(Reader::extract_entry, (&r, archive, idx, out), res) ==> if w.listed()[
            idx as int].kind == EntryKind::File {
                &&& final(out)@ == out@ + w.contents()[idx as int]
                &&& (res matches Ok(n) && n == w.contents()[idx as int].len())
            } else {
                final(out)@ == out@ && res == Ok::<u64, Error>(0)
            },
{
    let entries = lemma_finished_archive(w, rest);
    assert(r.listed() == entries) by {
        reveal(archive::is_archive);
    }
    law_same_accounts_say_the_same(entries, w.listed());
    assert(r.listed().len() == r.entries@.len());
    assert(says_the_same(entries[idx as int], w.listed()[idx as int]));
    assert forall|out: &mut Vec<u8>, res: Result<u64>| #[trigger]
        call_ensures(Reader::extract_entry, (&r, archive, idx, out), res) implies if w.listed()[
    idx as int].kind == EntryKind::File {
        &&& final(out)@ == out@ + w.contents()[idx as int]
        &&& (res matches Ok(n) && n == w.contents()[idx as int].len())
    } else {
        final(out)@ == out@ && res == Ok::<u64, Error>(0)
    } by {
        if w.listed()[idx as int].kind == EntryKind::File {
            archive::law_extract_gives_content(
                archive@,
                w.head(),
                w.key(),
                entries,
                w.contents(),
                idx as int,
                out@,
                final(out)@,
                res,
            );
        }
    }
}

/// Whether a reader is what opening the archive of a writer gives: it has the key
/// of the writer, and the entries that stand in the archive.
pub open spec fn opened_of(w: Writer, archive: Seq<u8>, r: Reader) -> bool {
    &&& frame::key_of(r.encryption) == w.key()
    &&& reader::contents_of(archive, w.key()) matches Ok((footer, entries)) && entries
        == index::views(r.entries@)
}

/// What opens a finished archive is a reader of it.
pub proof fn law_opened_is_of_the_writer<F: FnOnce() -> Result<String>>(
    w: Writer,
    rest: Vec<u8>,
    archive: &[u8],
    provider: F,
    r: Reader,
)
    requires
        w.wf(),
        w.sound(),
        w.head().1 is Some <==> w.lock() is Some,
        call_ensures(Writer::finish, (w,), Ok(rest)),
        archive@ == w.handed_out() + rest@,
        call_ensures(Reader::open::<F>, (archive, provider), Ok(r)),
        frame::key_of(r.encryption) == w.key(),
    ensures
        opened_of(w, archive@, r),
{
    let entries = lemma_finished_archive(w, rest);
    reveal(archive::is_archive);
}

/// A walk over a finished archive meets no error, and hands out every file that
/// was added, in the order in which they were added, with its content; so does a
/// test of its integrity.
pub proof fn law_walk_gives_what_was_added(w: Writer, rest: Vec<u8>, archive: &[u8], r: Reader)
    requires
        w.wf(),
        w.sound(),
        call_ensures(Writer::finish, (w,), Ok(rest)),
        archive@ == w.handed_out() + rest@,
        opened_of(w, archive@, r),
    ensures
        forall|out: &mut Vec<(usize, Vec<u8>)>, res: Result<()>| #[trigger]
            call_ensures(Reader::for_each_file, (&r, archive, out), res) && out@.len() == 0 ==> {
                let files = final(out)@;
                &&& res is Ok
                &&& forall|a: int| #![trigger files[a]]
                    0 <= a < files.len() ==> {
                        &&& files[a].0 < w.listed().len()
                        &&& w.listed()[files[a].0 as int].kind == EntryKind::File
                        &&& files[a].1@ == w.contents()[files[a].0 as int]
                    }
                &&& forall|a: int, b: int| #![trigger files[a], files[b]]
                    0 <= a < b < files.len() ==> files[a].0 < files[b].0
                &&& forall|i: int| #![trigger w.listed()[i]]
                    0 <= i < w.listed().len() && w.listed()[i].kind == EntryKind::File
                        ==> exists|a: int|
                        0 <= a < files.len() && (#[trigger] files[a]).0 == i
            },
        forall|res: Result<()>| #[trigger]
            call_ensures(Reader::verify_all, (&r, archive), res) ==> res is Ok,
{
    let entries = lemma_finished_archive(w, rest);
    assert(r.listed() == entries) by {
        reveal(archive::is_archive);
    }
    assert(entries.len() == r.entries.len());
    law_same_accounts_say_the_same(entries, w.listed());
    assert forall|out: &mut Vec<(usize, Vec<u8>)>, res: Result<()>| #[trigger]
        call_ensures(Reader::for_each_file, (&r, archive, out), res) && out@.len() == 0 implies {
        let files = final(out)@;
        &&& res is Ok
        &&& forall|a: int| #![trigger files[a]]
            0 <= a < files.len() ==> {
                &&& files[a].0 < w.listed().len()
                &&& w.listed()[files[a].0 as int].kind == EntryKind::File
                &&& files[a].1@ == w.contents()[files[a].0 as int]
            }
        &&& forall|a: int, b: int| #![trigger files[a], files[b]]
            0 <= a < b < files.len() ==> files[a].0 < files[b].0
        &&& forall|i: int| #![trigger w.listed()[i]]
            0 <= i < w.listed().len() && w.listed()[i].kind == EntryKind::File ==> exists|a: int|
                0 <= a < files.len() && (#[trigger] files[a]).0 == i
    } by {
        let files = final(out)@;
        let views = extract::delivered_views(files);
        let d = choose|d: Delivery| #[trigger]
            extract::is_delivery(archive@, r.key(), entries, d) && views
                == extract::delivered_views(out@) + d.files && match d.fault {
                None => res is Ok,
                Some(e) => res matches Err(x) && x@ == e,
            };
        assert(extract::delivered_views(out@) =~= Seq::empty());
        assert(views =~= d.files);
        archive::law_walk_gives_every_file(
            archive@,
            w.head(),
            w.key(),
            entries,
            w.contents(),
            d,
        );
        archive::law_walk_in_order(archive@, w.head(), w.key(), entries, w.contents(), d);
        assert forall|a: int| #![trigger files[a]] 0 <= a < files.len() implies {
            &&& files[a].0 < w.listed().len()
            &&& w.listed()[files[a].0 as int].kind == EntryKind::File
            &&& files[a].1@ == w.contents()[files[a].0 as int]
        } by {
            assert(views[a] == d.files[a]);
            assert(says_the_same(entries[d.files[a].0], w.listed()[d.files[a].0]));
        }
        assert forall|a: int, b: int| #![trigger files[a], files[b]]
            0 <= a < b < files.len() implies files[a].0 < files[b].0 by {
            assert(views[a] == d.files[a] && views[b] == d.files[b]);
        }
        assert forall|i: int| #![trigger w.listed()[i]]
            0 <= i < w.listed().len() && w.listed()[i].kind
                == EntryKind::File implies exists|a: int|
            0 <= a < files.len() && (#[trigger] files[a]).0 == i by {
            assert(says_the_same(entries[i], w.listed()[i]));
            assert(archive::served(d.files, i));
            let a = choose|a: int| 0 <= a < d.files.len() && #[trigger] d.files[a].0 == i;
            assert(views[a] == d.files[a]);
            assert(files[a].0 == i);
        }
    }
    assert forall|res: Result<()>| #[trigger]
        call_ensures(Reader::verify_all, (&r, archive), res) implies res is Ok by {
        let d = choose|d: Delivery| #[trigger]
            extract::is_delivery(archive@, r.key(), entries, d) && match d.fault {
                None => res is Ok,
                Some(e) => res matches Err(x) && x@ == e,
            };
        archive::law_walk_gives_every_file(
            archive@,
            w.head(),
            w.key(),
            entries,
            w.contents(),
            d,
        );
    }
}

/// The parts of a new entry are those that were given.
pub proof fn law_entry_has_what_was_given(
    path: String,
    mode: u32,
    mtime_sec: i64,
    mtime_nsec: u32,
    uncompressed_size: u64,
    frame_compressed_size: u64,
    frame_offset: u64,
    block_offset: u64,
    content_xxh3: u64,
    e: Entry,
)
    requires
        call_ensures(
            file_entry,
            (
                path,
                mode,
                mtime_sec,
                mtime_nsec,
                uncompressed_size,
                frame_compressed_size,
                frame_offset,
                block_offset,
                content_xxh3,
            ),
            e,
        ),
    ensures
        e.path@ == path@,
        e.kind == EntryKind::File,
        e.mode == mode,
        e.mtime_sec == mtime_sec,
        e.mtime_nsec == mtime_nsec,
        e.uncompressed_size == uncompressed_size,
        e.frame_compressed_size == frame_compressed_size,
        e.frame_offset == frame_offset,
        e.block_offset == block_offset,
        e.content_xxh3 == content_xxh3,
        e.link_target is None,
{
}

/// Telling entries the size of their frame changes that of the pending ones and
/// nothing else.
pub proof fn law_pending_entries_learn_their_size(pending: Vec<usize>, size: u64)
    ensures
        forall|entries: &mut Vec<Entry>| #[trigger]
            call_ensures(settle, (entries, &pending, size), ()) ==> {
                &&& final(entries)@.len() == entries@.len()
                &&& forall|i: int| #![trigger final(entries)@[i]]
                    0 <= i < entries@.len() ==> {
                        let (was, is) = (entries@[i]@, final(entries)@[i]@);
                        &&& says_the_same(is, was)
                        &&& is.frame_offset == was.frame_offset
                        &&& is.block_offset == was.block_offset
                        &&& is.frame_compressed_size == if pending@.contains(i as usize) {
                            size
                        } else {
                            was.frame_compressed_size
                        }
                    }
            },
{
    assert forall|entries: &mut Vec<Entry>| #[trigger]
        call_ensures(settle, (entries, &pending, size), ()) implies {
        &&& final(entries)@.len() == entries@.len()
        &&& forall|i: int| #![trigger final(entries)@[i]]
            0 <= i < entries@.len() ==> {
                let (was, is) = (entries@[i]@, final(entries)@[i]@);
                &&& says_the_same(is, was)
                &&& is.frame_offset == was.frame_offset
                &&& is.block_offset == was.block_offset
                &&& is.frame_compressed_size == if pending@.contains(i as usize) {
                    size
                } else {
                    was.frame_compressed_size
                }
            }
    } by {
        let (was, is) = (index::views(entries@), index::views(final(entries)@));
        assert(is.len() == was.len());
        assert forall|i: int| #![trigger final(entries)@[i]] 0 <= i < entries@.len() implies {
            let (was, is) = (entries@[i]@, final(entries)@[i]@);
            &&& says_the_same(is, was)
            &&& is.frame_offset == was.frame_offset
            &&& is.block_offset == was.block_offset
            &&& is.frame_compressed_size == if pending@.contains(i as usize) {
                size
            } else {
                was.frame_compressed_size
            }
        } by {
            assert(is[i] == final(entries)@[i]@ && was[i] == entries@[i]@);
        }
    }
}

/// Outside solid mode a file that was added has a frame of its own at the end of
/// what was written: it takes all the bytes that came in between, opens under the
/// key, and decompresses to the content, which was compressed as was asked for.
pub proof fn law_file_has_its_own_frame(
    path: &str,
    mode: u32,
    mtime_sec: i64,
    mtime_nsec: u32,
    content: &[u8],
)
    ensures
        forall|w: &mut Writer, res: Result<()>| #[trigger]
            call_ensures(
                Writer::add_file,
                (w, path, mode, mtime_sec, mtime_nsec, content),
                res,
            ) && w.packing() == WriterMode::PerFile && res is Ok && final(w).stream().len()
                <= u64::MAX ==> {
                let last = final(w).listed().last();
                let stored = final(w).stream().skip(w.stream().len() as int);
                &&& w.stream().len() < final(w).stream().len()
                &&& final(w).stream().take(w.stream().len() as int) == w.stream()
                &&& last.frame_offset == w.stream().len()
                &&& last.frame_compressed_size == stored.len()
                &&& last.block_offset == 0
                &&& frame::unsealed(w.key(), stored, "encrypted frame too small"@) matches Ok(
                    payload,
                ) && codec::zstd_frame(w.settings(), content@, payload)
                    && codec::zstd_decoded(payload) == Some(content@)
            },
{
    assert(Seq::<u8>::empty() + content@ =~= content@);
    assert forall|w: &mut Writer, res: Result<()>| #[trigger]
        call_ensures(
            Writer::add_file,
            (w, path, mode, mtime_sec, mtime_nsec, content),
            res,
        ) && w.packing() == WriterMode::PerFile && res is Ok && final(w).stream().len()
            <= u64::MAX implies {
        let last = final(w).listed().last();
        let stored = final(w).stream().skip(w.stream().len() as int);
        &&& w.stream().len() < final(w).stream().len()
        &&& final(w).stream().take(w.stream().len() as int) == w.stream()
        &&& last.frame_offset == w.stream().len()
        &&& last.frame_compressed_size == stored.len()
        &&& last.block_offset == 0
        &&& frame::unsealed(w.key(), stored, "encrypted frame too small"@) matches Ok(payload)
            && codec::zstd_frame(w.settings(), content@, payload) && codec::zstd_decoded(payload)
            == Some(content@)
    } by {
        let file = assembly::fed_file(w.begun(path@, mode, mtime_sec, mtime_nsec), content@);
        let (payload, stored) = choose|payload: Seq<u8>, stored: Seq<u8>| #[trigger]
            assembly::is_adding(w.key(), w.body(), file, final(w).body(), payload, stored);
        assert(final(w).stream().skip(w.stream().len() as int) =~= stored);
        assert(final(w).stream().take(w.stream().len() as int) =~= w.stream());
    }
}

/// In solid mode two files that fit the target together, added one after the
/// other where no shared frame is open, share a frame: they begin it, the second
/// right behind the first.
pub proof fn law_small_files_share_a_frame(
    path: &str,
    content: &[u8],
    next: &str,
    more: &[u8],
    mode: u32,
    mtime_sec: i64,
    mtime_nsec: u32,
    target_bytes: u64,
)
    requires
        content@.len() < target_bytes,
        content@.len() + more@.len() <= target_bytes,
    ensures
        forall|w: &mut Writer, v: &mut Writer| #[trigger]
            call_ensures(
                Writer::add_file,
                (w, path, mode, mtime_sec, mtime_nsec, content),
                Ok(()),
            ) && #[trigger]
            call_ensures(
                Writer::add_file,
                (v, next, mode, mtime_sec, mtime_nsec, more),
                Ok(()),
            ) && *v == *final(w) && w.packing() == (WriterMode::Solid { target_bytes })
                && w.block() is None && w.file() is None ==> {
                let n = w.listed().len() as int;
                let all = final(v).listed();
                &&& all.len() == n + 2
                &&& all[n].frame_offset == w.stream().len() as u64
                &&& all[n + 1].frame_offset == all[n].frame_offset
                &&& all[n].block_offset == 0
                &&& all[n + 1].block_offset == content@.len()
                &&& v.stream() == w.stream()
            },
{
    assert(Seq::<u8>::empty() + content@ =~= content@);
    assert(Seq::<u8>::empty() + more@ =~= more@);
    assert forall|w: &mut Writer, v: &mut Writer| #[trigger]
        call_ensures(
            Writer::add_file,
            (w, path, mode, mtime_sec, mtime_nsec, content),
            Ok(()),
        ) && #[trigger]
        call_ensures(
            Writer::add_file,
            (v, next, mode, mtime_sec, mtime_nsec, more),
            Ok(()),
        ) && *v == *final(w) && w.packing() == (WriterMode::Solid { target_bytes })
            && w.block() is None && w.file() is None implies {
        let n = w.listed().len() as int;
        let all = final(v).listed();
        &&& all.len() == n + 2
        &&& all[n].frame_offset == w.stream().len() as u64
        &&& all[n + 1].frame_offset == all[n].frame_offset
        &&& all[n].block_offset == 0
        &&& all[n + 1].block_offset == content@.len()
        &&& v.stream() == w.stream()
    } by {
        let n = w.listed().len() as int;
        let first = w.begun(path@, mode, mtime_sec, mtime_nsec);
        let block = w.current_block();
        let laid = assembly::fed_block(block, content@);
        let one = assembly::fed_file(first, content@);
        assert(v.body() == assembly::entered(w.body(), laid, one));
        assert(v.listed()[n] == assembly::file_view(one, 0, block.frame_offset));
        let open = v.current_block();
        assert(open.raw_bytes == content@.len());
        let second = v.begun(next@, mode, mtime_sec, mtime_nsec);
        let two = assembly::fed_file(second, more@);
        let grown = assembly::fed_block(open, more@);
        let now = assembly::entered(v.body(), grown, two);
        let joined = assembly::joined_block(grown, v.listed().len() as usize);
        assert(now.entries[n] == v.listed()[n]);
        assert(now.entries[n + 1] == assembly::file_view(two, 0, grown.frame_offset));
        if grown.raw_bytes >= target_bytes {
            let (payload, stored) = choose|payload: Seq<u8>, stored: Seq<u8>| #[trigger]
                assembly::is_closing(
                    v.key(),
                    now,
                    joined,
                    final(v).body(),
                    payload,
                    stored,
                );
            assert(final(v).listed().len() == now.entries.len());
            assert(final(v).listed()[n].frame_offset == now.entries[n].frame_offset);
            assert(final(v).listed()[n + 1].frame_offset == now.entries[n + 1].frame_offset);
        } else {
            assert(final(v).listed() == now.entries);
        }
    }
}

/// Outside solid mode the frames of a finished archive follow each other without
/// gaps: the first right behind the headers, each next right behind the one
/// before. None is empty, and none holds more than one file.
pub proof fn law_finished_frames_have_no_gaps(
    w: Writer,
    rest: Vec<u8>,
    archive: Seq<u8>,
    r: Reader,
    i: int,
    j: int,
)
    requires
        w.wf(),
        w.sound(),
        w.packing() == WriterMode::PerFile,
        call_ensures(Writer::finish, (w,), Ok(rest)),
        archive == w.handed_out() + rest@,
        opened_of(w, archive, r),
        -1 <= i < j < r.entries@.len(),
        i >= 0 ==> r.entries@[i].kind == EntryKind::File,
        r.entries@[j].kind == EntryKind::File,
        forall|k: int| #![trigger r.entries@[k]]
            i < k < j ==> r.entries@[k].kind != EntryKind::File,
    ensures
        r.entries@[j].frame_offset == if i < 0 {
            w.head_size() as int
        } else {
            r.entries@[i].frame_offset + r.entries@[i].frame_compressed_size
        },
        r.entries@[j].frame_compressed_size > 0,
        r.entries@[j].block_offset == 0,
{
    let entries = lemma_finished_archive(w, rest);
    assert(r.listed() == entries) by {
        reveal(archive::is_archive);
    }
    assert(entries[j] == r.entries@[j]@);
    if i >= 0 {
        assert(entries[i] == r.entries@[i]@);
    }
    assert forall|k: int| #![trigger entries[k]] i < k < j implies entries[k].kind
        != EntryKind::File by {
        assert(entries[k] == r.entries@[k]@);
    }
    archive::law_per_file_layout(archive, w.key(), w.head_size(), entries, i, j);
}

/// In solid mode the files of a frame of a finished archive follow each other in
/// it, and all of them end within the target, unless one of them is alone in
/// having bytes.
pub proof fn law_finished_frames_keep_to_target(
    w: Writer,
    rest: Vec<u8>,
    archive: Seq<u8>,
    r: Reader,
    target_bytes: u64,
    i: int,
    j: int,
)
    requires
        w.wf(),
        w.sound(),
        w.packing() == (WriterMode::Solid { target_bytes }),
        call_ensures(Writer::finish, (w,), Ok(rest)),
        archive == w.handed_out() + rest@,
        opened_of(w, archive, r),
        0 <= i < j < r.entries@.len(),
        r.entries@[i].kind == EntryKind::File,
        r.entries@[j].kind == EntryKind::File,
    ensures
        r.entries@[i].frame_offset <= r.entries@[j].frame_offset,
        r.entries@[i].frame_offset == r.entries@[j].frame_offset ==> {
            &&& r.entries@[i].block_offset + r.entries@[i].uncompressed_size
                <= r.entries@[j].block_offset
            &&& r.entries@[i].uncompressed_size > 0 ==> r.entries@[j].block_offset
                + r.entries@[j].uncompressed_size <= target_bytes
            &&& r.entries@[i].frame_compressed_size == r.entries@[j].frame_compressed_size
        },
{
    let entries = lemma_finished_archive(w, rest);
    reveal(archive::is_archive);
    assert(r.listed() == entries);
    assert(entries[i] == r.entries@[i]@ && entries[j] == r.entries@[j]@);
}

/// A frame that was made elsewhere is stored for a file with exactly what was
/// given, behind what was written, and its size is the number of bytes it takes;
/// a failure to make it is handed on and changes nothing.
pub proof fn law_packed_file_is_listed(
    path: String,
    mode: u32,
    mtime_sec: i64,
    mtime_nsec: u32,
    uncompressed_size: u64,
    content_xxh3: u64,
    payload: Vec<u8>,
    source: std::io::Error,
)
    ensures
        forall|w: &mut Writer, res: Result<()>| #[trigger]
            call_ensures(
                Writer::add_packed,
                (
                    w,
                    path,
                    mode,
                    mtime_sec,
                    mtime_nsec,
                    uncompressed_size,
                    content_xxh3,
                    Ok(payload),
                ),
                res,
            ) && res is Ok && final(w).stream().len() <= u64::MAX ==> {
                let last = final(w).listed().last();
                let stored = final(w).stream().skip(w.stream().len() as int);
                &&& final(w).listed().len() == w.listed().len() + 1
                &&& final(w).listed().drop_last() == w.listed()
                &&& last.path == path@
                &&& last.kind == EntryKind::File
                &&& last.mode == mode
                &&& last.mtime_sec == mtime_sec
                &&& last.mtime_nsec == mtime_nsec
                &&& last.uncompressed_size == uncompressed_size
                &&& last.content_xxh3 == content_xxh3
                &&& last.frame_offset == w.stream().len()
                &&& last.frame_compressed_size == stored.len()
                &&& last.block_offset == 0
                &&& last.link_target is None
                &&& frame::unsealed(w.key(), stored, "encrypted frame too small"@) == Ok::<
                    Seq<u8>,
                    ErrorView,
                >(payload@)
                &&& w.key() is None ==> stored == payload@
            },
        forall|w: &mut Writer, res: Result<()>| #[trigger]
            call_ensures(
                Writer::add_packed,
                (
                    w,
                    path,
                    mode,
                    mtime_sec,
                    mtime_nsec,
                    uncompressed_size,
                    content_xxh3,
                    Err(source),
                ),
                res,
            ) ==> res == Err::<(), Error>(Error::Io(IoFault::Source(source))) && final(w).listed()
                == w.listed() && final(w).stream() == w.stream(),
{
    assert forall|w: &mut Writer, res: Result<()>| #[trigger]
        call_ensures(
            Writer::add_packed,
            (
                w,
                path,
                mode,
                mtime_sec,
                mtime_nsec,
                uncompressed_size,
                content_xxh3,
                Ok(payload),
            ),
            res,
        ) && res is Ok && final(w).stream().len() <= u64::MAX implies {
        let last = final(w).listed().last();
        let stored = final(w).stream().skip(w.stream().len() as int);
        &&& final(w).listed().len() == w.listed().len() + 1
        &&& final(w).listed().drop_last() == w.listed()
        &&& last.path == path@
        &&& last.kind == EntryKind::File
        &&& last.mode == mode
        &&& last.mtime_sec == mtime_sec
        &&& last.mtime_nsec == mtime_nsec
        &&& last.uncompressed_size == uncompressed_size
        &&& last.content_xxh3 == content_xxh3
        &&& last.frame_offset == w.stream().len()
        &&& last.frame_compressed_size == stored.len()
        &&& last.block_offset == 0
        &&& last.link_target is None
        &&& frame::unsealed(w.key(), stored, "encrypted frame too small"@) == Ok::<
            Seq<u8>,
            ErrorView,
        >(payload@)
        &&& w.key() is None ==> stored == payload@
    } by {
        let stored = choose|stored: Seq<u8>| #[trigger]
            assembly::is_appending(
                w.key(),
                w.body(),
                payload@,
                stored,
                final(w).body(),
            ) && final(w).listed().last().frame_compressed_size == stored.len() as u64;
        assert(final(w).stream().skip(w.stream().len() as int) =~= stored);
        assert(final(w).listed().drop_last() =~= w.listed());
    }
}

/// Bytes that are stored go behind what was written, all of them, unless the
/// stream would outgrow its offsets.
pub proof fn law_stored_bytes_are_appended(stored: &[u8])
    ensures
        forall|w: &mut Writer, res: Result<u64>| #[trigger]
            call_ensures(Writer::write_stored, (w, stored), res) ==> {
                &&& res is Ok <==> w.stream().len() + stored@.len() <= u64::MAX
                &&& res matches Ok(n) ==> n == stored@.len() && final(w).stream() == w.stream()
                    + stored@
                &&& res matches Err(e) ==> e@ == error::too_large() && final(w).stream()
                    == w.stream()
                &&& final(w).listed() == w.listed()
            },
{
}

/// An archive without encryption, with no shared frame open, is finished whenever
/// its index can be written and all of it fits the offsets.
pub proof fn law_finishing_succeeds(w: Writer, res: Result<Vec<u8>>)
    requires
        w.wf(),
        w.lock() is None,
        w.block() is None,
        call_ensures(Writer::finish, (w,), res),
        w.stream().len() + index::index_write(w.listed()).bytes.len() + 32 <= u64::MAX,
    ensures
        res is Ok <==> index::index_write(w.listed()).fault is None,
{
}

/// In solid mode a file that fits the open frame joins it, right behind what the
/// frame holds, and the frame stays open while it holds less than the target.
pub proof fn law_file_joins_the_open_frame(
    path: &str,
    mode: u32,
    mtime_sec: i64,
    mtime_nsec: u32,
    content: &[u8],
    target_bytes: u64,
)
    ensures
        forall|w: &mut Writer, res: Result<()>| #[trigger]
            call_ensures(
                Writer::add_file,
                (w, path, mode, mtime_sec, mtime_nsec, content),
                res,
            ) && res is Ok && w.packing() == (WriterMode::Solid { target_bytes })
                && w.file() is None && w.block() is Some && w.block()->Some_0.raw_bytes
                + content@.len() <= target_bytes ==> {
                let block = w.block()->Some_0;
                let last = final(w).listed().last();
                &&& last.frame_offset == block.frame_offset
                &&& last.block_offset == block.raw_bytes
                &&& block.raw_bytes + content@.len() < target_bytes ==> {
                    &&& final(w).stream() == w.stream()
                    &&& (final(w).block() matches Some(now) && {
                        &&& now.frame_offset == block.frame_offset
                        &&& now.raw_bytes == block.raw_bytes + content@.len()
                        &&& now.input == block.input + content@
                        &&& now.settings == block.settings
                    })
                }
            },
{
    assert(Seq::<u8>::empty() + content@ =~= content@);
    assert forall|w: &mut Writer, res: Result<()>| #[trigger]
        call_ensures(
            Writer::add_file,
            (w, path, mode, mtime_sec, mtime_nsec, content),
            res,
        ) && res is Ok && w.packing() == (WriterMode::Solid { target_bytes }) && w.file() is None
            && w.block() is Some && w.block()->Some_0.raw_bytes + content@.len()
            <= target_bytes implies {
        let block = w.block()->Some_0;
        let last = final(w).listed().last();
        &&& last.frame_offset == block.frame_offset
        &&& last.block_offset == block.raw_bytes
        &&& block.raw_bytes + content@.len() < target_bytes ==> {
            &&& final(w).stream() == w.stream()
            &&& (final(w).block() matches Some(now) && {
                &&& now.frame_offset == block.frame_offset
                &&& now.raw_bytes == block.raw_bytes + content@.len()
                &&& now.input == block.input + content@
                &&& now.settings == block.settings
            })
        }
    } by {
        let n = w.listed().len() as int;
        let block = w.block()->Some_0;
        let file = assembly::fed_file(w.begun(path@, mode, mtime_sec, mtime_nsec), content@);
        let laid = assembly::fed_block(block, content@);
        let now = assembly::entered(w.body(), laid, file);
        let joined = assembly::joined_block(laid, w.listed().len() as usize);
        assert(now.entries[n] == assembly::file_view(file, 0, block.frame_offset));
        if laid.raw_bytes >= target_bytes {
            let (payload, stored) = choose|payload: Seq<u8>, stored: Seq<u8>| #[trigger]
                assembly::is_closing(w.key(), now, joined, final(w).body(), payload, stored);
            assert(final(w).listed().len() == n + 1);
            assert(final(w).listed()[n].frame_offset == now.entries[n].frame_offset);
        }
    }
}

/// While a file comes in piece by piece and still fits the open frame, nothing of
/// what was written changes; where it no longer fits, it begins a new frame.
pub proof fn law_streamed_file_stays_while_it_fits(chunk: &[u8], target_bytes: u64)
    ensures
        forall|w: &mut Writer, res: Result<()>| #[trigger]
            call_ensures(Writer::write_chunk, (w, chunk), res) && res is Ok && w.packing() == (
            WriterMode::Solid { target_bytes }) && w.file() is Some && w.block() is Some
                && !w.file()->Some_0.placed ==> {
                let (f, block) = (w.file()->Some_0, w.block()->Some_0);
                let fits = block.raw_bytes + f.seen.len() + chunk@.len() <= target_bytes;
                &&& fits ==> {
                    &&& final(w).stream() == w.stream() && final(w).listed() == w.listed()
                    &&& final(w).block() == w.block()
                    &&& final(w).file()->Some_0.block_offset == f.block_offset
                }
                &&& !fits ==> {
                    &&& final(w).file()->Some_0.block_offset == 0
                    &&& (final(w).block() matches Some(now) && now.input == f.seen + chunk@
                        && now.frame_offset == final(w).stream().len() as u64 && now.settings
                        == w.settings())
                }
            },
{
}

/// The last shared frame of an archive is compressed as was asked for, and stands
/// behind everything else that was added.
pub proof fn law_last_frame_is_stored(w: Writer, rest: Vec<u8>)
    requires
        w.wf(),
        w.sound(),
        w.file() is None,
        w.block() is Some,
        call_ensures(Writer::finish, (w,), Ok(rest)),
    ensures
        exists|payload: Seq<u8>, stored: Seq<u8>|
            #![trigger codec::zstd_frame(w.settings(), w.block()->Some_0.input, payload), stored.len()]
            {
                &&& codec::zstd_frame(w.settings(), w.block()->Some_0.input, payload)
                &&& frame::unsealed(w.key(), stored, "encrypted frame too small"@) == Ok::<
                    Seq<u8>,
                    ErrorView,
                >(payload)
                &&& w.stream().len() + stored.len() <= (w.handed_out() + rest@).len()
                &&& (w.handed_out() + rest@).take((w.stream().len() + stored.len()) as int)
                    == w.stream() + stored
            },
{
    let archive = w.handed_out() + rest@;
    let last = choose|last: Body| #[trigger]
        assembly::finishes(w.key(), last, archive) && assembly::ends_at(
            w.key(),
            w.body(),
            w.block_without_file(),
            last,
        );
    let block = w.block()->Some_0;
    let (payload, stored) = choose|payload: Seq<u8>, stored: Seq<u8>| #[trigger]
        assembly::is_closing(w.key(), w.body(), block, last, payload, stored);
    let ended = choose|ended: Seq<u8>| #[trigger]
        assembly::is_finish(w.key(), last, archive, ended);
    reveal(assembly::is_finish);
    assert(archive.take((w.stream().len() + stored.len()) as int) =~= w.stream() + stored);
    assert(codec::zstd_frame(w.settings(), w.block()->Some_0.input, payload));
    assert(stored.len() >= 0);
}

/// A shared frame that was made elsewhere goes behind what was written, and the
/// entries that waited for it learn its size; nothing else of them changes.
pub proof fn law_packed_frame_is_settled(
    pending: Vec<usize>,
    payload: Vec<u8>,
    source: std::io::Error,
)
    ensures
        forall|w: &mut Writer, res: Result<()>| #[trigger]
            call_ensures(Writer::settle_packed, (w, &pending, Ok(payload)), res) && res is Ok
                && final(w).stream().len() <= u64::MAX ==> {
                let stored = final(w).stream().skip(w.stream().len() as int);
                &&& final(w).stream().take(w.stream().len() as int) == w.stream()
                &&& frame::unsealed(w.key(), stored, "encrypted frame too small"@) == Ok::<
                    Seq<u8>,
                    ErrorView,
                >(payload@)
                &&& final(w).listed().len() == w.listed().len()
                &&& final(w).contents() == w.contents()
                &&& forall|i: int| #![trigger final(w).listed()[i]]
                    0 <= i < w.listed().len() ==> {
                        let (was, is) = (w.listed()[i], final(w).listed()[i]);
                        &&& says_the_same(is, was)
                        &&& is.frame_offset == was.frame_offset
                        &&& is.block_offset == was.block_offset
                        &&& is.frame_compressed_size == if pending@.contains(i as usize) {
                            stored.len() as u64
                        } else {
                            was.frame_compressed_size
                        }
                    }
            },
        forall|w: &mut Writer, res: Result<()>| #[trigger]
            call_ensures(Writer::settle_packed, (w, &pending, Err(source)), res) ==> res == Err::<
                (),
                Error,
            >(Error::Io(IoFault::Source(source))) && final(w).listed() == w.listed()
                && final(w).stream() == w.stream(),
{
    assert forall|w: &mut Writer, res: Result<()>| #[trigger]
        call_ensures(Writer::settle_packed, (w, &pending, Ok(payload)), res) && res is Ok
            && final(w).stream().len() <= u64::MAX implies {
        let stored = final(w).stream().skip(w.stream().len() as int);
        &&& final(w).stream().take(w.stream().len() as int) == w.stream()
        &&& frame::unsealed(w.key(), stored, "encrypted frame too small"@) == Ok::<
            Seq<u8>,
            ErrorView,
        >(payload@)
        &&& final(w).listed().len() == w.listed().len()
        &&& final(w).contents() == w.contents()
        &&& forall|i: int| #![trigger final(w).listed()[i]]
            0 <= i < w.listed().len() ==> {
                let (was, is) = (w.listed()[i], final(w).listed()[i]);
                &&& says_the_same(is, was)
                &&& is.frame_offset == was.frame_offset
                &&& is.block_offset == was.block_offset
                &&& is.frame_compressed_size == if pending@.contains(i as usize) {
                    stored.len() as u64
                } else {
                    was.frame_compressed_size
                }
            }
    } by {
        let stored = choose|stored: Seq<u8>| #[trigger]
            assembly::is_settling(
                w.key(),
                w.body(),
                pending@,
                payload@,
                stored,
                final(w).body(),
            );
        assert(final(w).stream().skip(w.stream().len() as int) =~= stored);
        assert(final(w).stream().take(w.stream().len() as int) =~= w.stream());
    }
}

/// Unless asked otherwise, each file has its own frame.
pub proof fn law_default_packing(mode: WriterMode)
    requires
        call_ensures(<WriterMode as Default>::default, (), mode),
    ensures
        mode == WriterMode::PerFile,
{
}

/// A finished archive ends with a footer that points to the index right before
/// it, names the hash of the index, and has no flags.
pub proof fn law_finished_archive_has_a_footer(w: Writer, rest: Vec<u8>)
    requires
        w.wf(),
        call_ensures(Writer::finish, (w,), Ok(rest)),
    ensures
        ({
            let archive = w.handed_out() + rest@;
            let end = archive.len() - 32;
            let tail = archive.skip(end);
            let start = crate::format::u64_at(tail, 0);
            &&& 0 <= end
            &&& crate::format::marked(tail, 28)
            &&& w.stream().len() <= start <= end
            &&& start + crate::format::u64_at(tail, 8) == end
            &&& crate::format::u32_at(tail, 24) == 0
            &&& archive.take(w.stream().len() as int) == w.stream()
            &&& frame::unsealed(
                w.key(),
                archive.subrange(start, end),
                "encrypted index too small"@,
            ) matches Ok(plain) && codec::xxh3_of(plain) == crate::format::u64_at(tail, 16)
        }),
{
    let archive = w.handed_out() + rest@;
    let last = choose|last: Body| #[trigger]
        assembly::finishes(w.key(), last, archive) && assembly::ends_at(
            w.key(),
            w.body(),
            w.block_without_file(),
            last,
        );
    let stored = choose|stored: Seq<u8>| #[trigger]
        assembly::is_finish(w.key(), last, archive, stored);
    reveal(assembly::is_finish);
    let footer = crate::format::Footer {
        index_offset: last.stream.len() as u64,
        index_size: stored.len() as u64,
        index_xxh3: codec::xxh3_of(index::index_write(last.entries).bytes),
        flags: 0,
    };
    crate::format::lemma_footer_stands(footer);
    assert(archive.skip(archive.len() - 32) =~= crate::format::footer_bytes(footer));
    assert(archive.subrange(last.stream.len() as int, archive.len() - 32) =~= stored);
    if let Some(block) = w.block_without_file() {
        let (payload, closing) = choose|payload: Seq<u8>, closing: Seq<u8>| #[trigger]
            assembly::is_closing(w.key(), w.body(), block, last, payload, closing);
        assert(last.stream == w.stream() + closing);
    }
    assert(archive.take(w.stream().len() as int) =~= w.stream());
}

} // verus!
