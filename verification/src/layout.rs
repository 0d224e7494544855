//! How entries stand in the bytes of an index, and how they come back.

use crate::bytes;
use crate::error::Result;
use crate::format::EntryKind;
use crate::index;
use crate::index::{read_index, write_index, Entry, EntryView};
use vstd::prelude::*;
use vstd::utf8::*;

verus! {

/// An entry is told by its fields as they are: none of them is changed or left
/// out on the way into a contract.
pub proof fn law_entry_is_told_as_it_is(e: Entry)
    ensures
        e@.path == e.path@,
        e@.kind == e.kind,
        e@.mode == e.mode,
        e@.mtime_sec == e.mtime_sec,
        e@.mtime_nsec == e.mtime_nsec,
        e@.uncompressed_size == e.uncompressed_size,
        e@.frame_compressed_size == e.frame_compressed_size,
        e@.frame_offset == e.frame_offset,
        e@.block_offset == e.block_offset,
        e@.content_xxh3 == e.content_xxh3,
        match e.link_target {
            Some(target) => e@.link_target == Some(target@),
            None => e@.link_target is None,
        },
{
}

/// Where a link points to, as text; nothing where no target was given.
pub open spec fn target_of(e: Entry) -> Seq<char> {
    match e.link_target {
        Some(target) => target@,
        None => Seq::empty(),
    }
}

/// Whether `x` is `e` read back: the same in every field, with a target if and
/// only if it is a link.
pub open spec fn reads_as(e: Entry, x: Entry) -> bool {
    &&& x.path@ == e.path@
    &&& x.kind == e.kind
    &&& x.mode == e.mode
    &&& x.mtime_sec == e.mtime_sec
    &&& x.mtime_nsec == e.mtime_nsec
    &&& x.uncompressed_size == e.uncompressed_size
    &&& x.frame_compressed_size == e.frame_compressed_size
    &&& x.frame_offset == e.frame_offset
    &&& x.block_offset == e.block_offset
    &&& x.content_xxh3 == e.content_xxh3
    &&& x.link_target is Some <==> e.kind == EntryKind::Symlink
    &&& x.link_target matches Some(target) ==> target@ == target_of(e)
}

/// Whether the bytes of `e` stand in `s` and fill it: a 16-bit length and the
/// path, the kind, the numbers in their order, and for a link a 16-bit length
/// and the target.
#[verifier::opaque]
pub open spec fn entry_stands(s: Seq<u8>, e: Entry) -> bool {
    let path = encode_utf8(e.path@);
    let at = 2 + path.len() as int;
    &&& s.len() >= at + 57
    &&& crate::format::u16_at(s, 0) == path.len()
    &&& s.subrange(2, at) == path
    &&& s[at] == match e.kind {
        EntryKind::File => 0u8,
        EntryKind::Dir => 1u8,
        EntryKind::Symlink => 2u8,
    }
    &&& crate::format::u32_at(s, at + 1) == e.mode
    &&& crate::format::i64_stands(s, at + 5, e.mtime_sec)
    &&& crate::format::u32_at(s, at + 13) == e.mtime_nsec
    &&& crate::format::u64_at(s, at + 17) == e.uncompressed_size
    &&& crate::format::u64_at(s, at + 25) == e.frame_compressed_size
    &&& crate::format::u64_at(s, at + 33) == e.frame_offset
    &&& crate::format::u64_at(s, at + 41) == e.block_offset
    &&& crate::format::u64_at(s, at + 49) == e.content_xxh3
    &&& if e.kind == EntryKind::Symlink {
        let target = encode_utf8(target_of(e));
        &&& s.len() == at + 59 + target.len()
        &&& crate::format::u16_at(s, at + 57) == target.len()
        &&& s.skip(at + 59) == target
    } else {
        s.len() == at + 57
    }
}

/// The bytes of an entry stand as they should.
proof fn lemma_entry_stands(e: Entry)
    requires
        index::entry_write(e@).fault is None,
    ensures
        entry_stands(index::entry_write(e@).bytes, e),
{
    reveal(entry_stands);
    let v = e@;
    let s = index::entry_write(v).bytes;
    let path = encode_utf8(v.path);
    let at = 2 + path.len() as int;
    bytes::lemma_le_limits();
    bytes::lemma_i64_bits(v.mtime_sec);
    bytes::lemma_le_bytes_len(path.len(), 2);
    bytes::lemma_le_bytes_len(v.mode as nat, 4);
    bytes::lemma_le_bytes_len(bytes::i64_bits(v.mtime_sec), 8);
    bytes::lemma_le_bytes_len(v.mtime_nsec as nat, 4);
    bytes::lemma_le_bytes_len(v.uncompressed_size as nat, 8);
    bytes::lemma_le_bytes_len(v.frame_compressed_size as nat, 8);
    bytes::lemma_le_bytes_len(v.frame_offset as nat, 8);
    bytes::lemma_le_bytes_len(v.block_offset as nat, 8);
    bytes::lemma_le_bytes_len(v.content_xxh3 as nat, 8);
    crate::format::lemma_stands(s, 0, path.len(), 2);
    crate::format::lemma_stands(s, at + 1, v.mode as nat, 4);
    crate::format::lemma_stands(s, at + 5, bytes::i64_bits(v.mtime_sec), 8);
    crate::format::lemma_stands(s, at + 13, v.mtime_nsec as nat, 4);
    crate::format::lemma_stands(s, at + 17, v.uncompressed_size as nat, 8);
    crate::format::lemma_stands(s, at + 25, v.frame_compressed_size as nat, 8);
    crate::format::lemma_stands(s, at + 33, v.frame_offset as nat, 8);
    crate::format::lemma_stands(s, at + 41, v.block_offset as nat, 8);
    crate::format::lemma_stands(s, at + 49, v.content_xxh3 as nat, 8);
    assert(s.subrange(2, at) =~= path);
    if v.kind == EntryKind::Symlink {
        let target = encode_utf8(v.target_text());
        bytes::lemma_le_bytes_len(target.len(), 2);
        crate::format::lemma_stands(s, at + 57, target.len(), 2);
        assert(v.target_text() == target_of(e));
        assert(s.skip(at + 59) =~= target);
    }
}

/// An entry is written exactly if its path, and its target if it is a link, have
/// at most 65535 bytes, and then stands behind what was there.
pub proof fn law_entry_is_written(e: Entry)
    ensures
        forall|w: &mut Vec<u8>, res: Result<()>| #[trigger]
            call_ensures(Entry::write_to, (&e, w), res) ==> {
                &&& res is Ok <==> encode_utf8(e.path@).len() <= 0xFFFF && (e.kind
                    == EntryKind::Symlink ==> encode_utf8(target_of(e)).len() <= 0xFFFF)
                &&& res matches Err(x) ==> x@ is InvalidPath
                &&& w@.len() <= final(w)@.len()
                &&& final(w)@.take(w@.len() as int) == w@
                &&& res is Ok ==> entry_stands(final(w)@.skip(w@.len() as int), e)
            },
{
    let out = index::entry_write(e@);
    assert(e@.target_text() == target_of(e));
    if out.fault is None {
        lemma_entry_stands(e);
    }
    assert forall|w: &mut Vec<u8>, res: Result<()>| #[trigger]
        call_ensures(Entry::write_to, (&e, w), res) implies {
        &&& res is Ok <==> encode_utf8(e.path@).len() <= 0xFFFF && (e.kind == EntryKind::Symlink
            ==> encode_utf8(target_of(e)).len() <= 0xFFFF)
        &&& res matches Err(x) ==> x@ is InvalidPath
        &&& w@.len() <= final(w)@.len()
        &&& final(w)@.take(w@.len() as int) == w@
        &&& res is Ok ==> entry_stands(final(w)@.skip(w@.len() as int), e)
    } by {
        assert(final(w)@ == w@ + out.bytes);
        assert(final(w)@.take(w@.len() as int) =~= w@);
        assert(final(w)@.skip(w@.len() as int) =~= out.bytes);
    }
}

/// An entry that is read is the one whose bytes stand at the front, and `r` is
/// moved just behind them.
pub proof fn law_entry_is_read()
    ensures
        forall|r: &mut &[u8], res: Result<Entry>| #[trigger]
            call_ensures(Entry::read_from, (r,), res) ==> {
                res matches Ok(e) ==> {
                    let len = r@.len() - final(r)@.len();
                    &&& 0 <= len <= r@.len()
                    &&& final(r)@ == r@.skip(len)
                    &&& entry_stands(r@.take(len), e)
                    &&& e.link_target is Some <==> e.kind == EntryKind::Symlink
                }
            },
{
    assert forall|r: &mut &[u8], res: Result<Entry>| #[trigger]
        call_ensures(Entry::read_from, (r,), res) implies {
        res matches Ok(e) ==> {
            let len = r@.len() - final(r)@.len();
            &&& 0 <= len <= r@.len()
            &&& final(r)@ == r@.skip(len)
            &&& entry_stands(r@.take(len), e)
            &&& e.link_target is Some <==> e.kind == EntryKind::Symlink
        }
    } by {
        if let Ok(e) = res {
            let s = r@;
            index::lemma_parse_entry_len(s);
            index::law_entry_faithful(s);
            lemma_entry_stands(e);
            let len = index::parse_entry(s)->Ok_0.1;
            assert(s.subrange(0, len) =~= s.take(len));
        }
    }
}

/// An entry that was written is read back with every field that it was written
/// with, whatever follows it.
pub proof fn law_entry_comes_back(e: Entry, rest: Seq<u8>)
    ensures
        forall|w: &mut Vec<u8>, res: Result<()>, r: &mut &[u8], again: Result<Entry>|
            #[trigger]
            call_ensures(Entry::write_to, (&e, w), res) && #[trigger]
            call_ensures(Entry::read_from, (r,), again) && res is Ok && r@ == final(w)@.skip(
                w@.len() as int,
            ) + rest ==> (again matches Ok(x) && reads_as(e, x)) && final(r)@ == rest,
{
    let out = index::entry_write(e@);
    assert forall|w: &mut Vec<u8>, res: Result<()>, r: &mut &[u8], again: Result<Entry>|
        #[trigger]
        call_ensures(Entry::write_to, (&e, w), res) && #[trigger]
        call_ensures(Entry::read_from, (r,), again) && res is Ok && r@ == final(w)@.skip(
            w@.len() as int,
        ) + rest implies (again matches Ok(x) && reads_as(e, x)) && final(r)@ == rest by {
        assert(final(w)@ == w@ + out.bytes);
        assert(final(w)@.skip(w@.len() as int) =~= out.bytes);
        index::law_entry_round_trip(e@, rest);
        assert(e@.target_text() == target_of(e));
        assert((out.bytes + rest).skip(out.bytes.len() as int) =~= rest);
    }
}

/// An index that was written is read back with every entry that it was written
/// with, in their order, and every field of it.
pub proof fn law_index_comes_back(entries: &[Entry], rest: Seq<u8>)
    ensures
        forall|w: &mut Vec<u8>, res: Result<()>, r: &mut &[u8], again: Result<Vec<Entry>>|
            #[trigger]
            call_ensures(write_index, (w, entries), res) && #[trigger]
            call_ensures(read_index, (r,), again) && res is Ok && r@ == final(w)@.skip(
                w@.len() as int,
            ) + rest ==> {
                &&& final(r)@ == rest
                &&& again matches Ok(found) && {
                    &&& found@.len() == entries@.len()
                    &&& forall|i: int|
                        0 <= i < entries@.len() ==> reads_as(
                            #[trigger] entries@[i],
                            found@[i],
                        )
                }
            },
{
    let all = index::views(entries@);
    let out = index::index_write(all);
    assert forall|w: &mut Vec<u8>, res: Result<()>, r: &mut &[u8], again: Result<Vec<Entry>>|
        #[trigger]
        call_ensures(write_index, (w, entries), res) && #[trigger]
        call_ensures(read_index, (r,), again) && res is Ok && r@ == final(w)@.skip(
            w@.len() as int,
        ) + rest implies {
        &&& final(r)@ == rest
        &&& again matches Ok(found) && {
            &&& found@.len() == entries@.len()
            &&& forall|i: int|
                0 <= i < entries@.len() ==> reads_as(#[trigger] entries@[i], found@[i])
        }
    } by {
        assert(final(w)@ == w@ + out.bytes);
        assert(final(w)@.skip(w@.len() as int) =~= out.bytes);
        index::law_index_round_trip(all, rest);
        assert((out.bytes + rest).skip(out.bytes.len() as int) =~= rest);
        let found = again->Ok_0;
        assert(index::views(found@).len() == index::canonical(all).len());
        assert forall|i: int| 0 <= i < entries@.len() implies reads_as(
            #[trigger] entries@[i],
            found@[i],
        ) by {
            assert(index::views(found@)[i] == index::canonical(all)[i]);
            assert(all[i] == entries@[i]@);
            assert(all[i].target_text() == target_of(entries@[i]));
        }
    }
}

/// An index starts with the number of its entries in 32 bits. One more entry puts
/// its bytes behind those of the others, and changes nothing else.
#[verifier::rlimit(60)]
pub proof fn law_index_grows(few: &[Entry], many: &[Entry])
    requires
        many@.len() == few@.len() + 1,
        many@.drop_last() == few@,
    ensures
        forall|w: &mut Vec<u8>, res: Result<()>, v: &mut Vec<u8>, more: Result<()>|
            #[trigger]
            call_ensures(write_index, (w, few), res) && #[trigger]
            call_ensures(write_index, (v, many), more) && res is Ok && more is Ok ==> {
                let a = final(w)@.skip(w@.len() as int);
                let b = final(v)@.skip(v@.len() as int);
                &&& 4 <= a.len() <= b.len()
                &&& crate::format::u32_at(a, 0) == few@.len()
                &&& crate::format::u32_at(b, 0) == many@.len()
                &&& b.subrange(4, a.len() as int) == a.skip(4)
                &&& entry_stands(b.skip(a.len() as int), many@.last())
            },
{
    let (a, b) = (index::views(few@), index::views(many@));
    assert(b.drop_last() =~= a);
    assert(b.last() == many@.last()@);
    bytes::lemma_le_limits();
    bytes::lemma_le_bytes_len(a.len(), 4);
    bytes::lemma_le_bytes_len(b.len(), 4);
    lemma_entries_pushed(b);
    assert forall|w: &mut Vec<u8>, res: Result<()>, v: &mut Vec<u8>, more: Result<()>|
        #[trigger]
        call_ensures(write_index, (w, few), res) && #[trigger]
        call_ensures(write_index, (v, many), more) && res is Ok && more is Ok implies {
        let a = final(w)@.skip(w@.len() as int);
        let b = final(v)@.skip(v@.len() as int);
        &&& 4 <= a.len() <= b.len()
        &&& crate::format::u32_at(a, 0) == few@.len()
        &&& crate::format::u32_at(b, 0) == many@.len()
        &&& b.subrange(4, a.len() as int) == a.skip(4)
        &&& entry_stands(b.skip(a.len() as int), many@.last())
    } by {
        let (x, y) = (index::index_write(a).bytes, index::index_write(b).bytes);
        assert(final(w)@.skip(w@.len() as int) =~= x);
        assert(final(v)@.skip(v@.len() as int) =~= y);
        crate::format::lemma_stands(x, 0, a.len(), 4);
        crate::format::lemma_stands(y, 0, b.len(), 4);
        let last = index::entry_write(b.last()).bytes;
        assert(y.subrange(4, x.len() as int) =~= x.skip(4));
        assert(y.skip(x.len() as int) =~= last);
        lemma_entry_stands(many@.last());
    }
}

/// Writing entries writes the last behind the others.
#[verifier::rlimit(40)]
proof fn lemma_entries_pushed(entries: Seq<EntryView>)
    requires
        entries.len() > 0,
    ensures
        index::entries_write(entries).fault is None ==> {
            &&& index::entries_write(entries.drop_last()).fault is None
            &&& index::entry_write(entries.last()).fault is None
            &&& index::entries_write(entries).bytes == index::entries_write(entries.drop_last()).bytes
                + index::entry_write(entries.last()).bytes
        },
        index::entries_write(entries.drop_last()).fault is None ==> index::entries_write(entries).fault
            == index::entry_write(entries.last()).fault,
        index::entries_write(entries.drop_last()).fault is Some ==> index::entries_write(entries).fault
            == index::entries_write(entries.drop_last()).fault,
    decreases entries.len(),
{
    let front = entries.drop_last();
    if entries.len() == 1 {
        assert(entries.drop_first() =~= Seq::empty());
        assert(front =~= Seq::empty());
        let one = index::entry_write(entries[0]).bytes;
        assert(one + Seq::empty() =~= one);
        assert(Seq::empty() + one =~= one);
    } else {
        let tail = entries.drop_first();
        lemma_entries_pushed(tail);
        assert(tail.last() == entries.last());
        assert(tail.drop_last() =~= front.drop_first());
        assert(front[0] == entries[0]);
        let first = index::entry_write(entries[0]).bytes;
        let mid = index::entries_write(front.drop_first()).bytes;
        let last = index::entry_write(entries.last()).bytes;
        assert(first + (mid + last) =~= first + mid + last);
    }
}

/// An index can be written exactly if there are fewer entries than 32 bits can
/// count, and each of them can be written.
pub proof fn law_index_is_written(few: &[Entry], many: &[Entry])
    requires
        many@.len() == few@.len() + 1,
        many@.drop_last() == few@,
        many@.len() <= 0xFFFF_FFFF,
    ensures
        forall|w: &mut Vec<u8>, res: Result<()>, v: &mut Vec<u8>, more: Result<()>|
            #[trigger]
            call_ensures(write_index, (w, few), res) && #[trigger]
            call_ensures(write_index, (v, many), more) ==> (more is Ok <==> res is Ok
                && encode_utf8(many@.last().path@).len() <= 0xFFFF && (many@.last().kind
                == EntryKind::Symlink ==> encode_utf8(target_of(many@.last())).len() <= 0xFFFF)),
{
    let (a, b) = (index::views(few@), index::views(many@));
    assert(b.drop_last() =~= a);
    assert(b.last() == many@.last()@);
    assert(many@.last()@.target_text() == target_of(many@.last()));
    lemma_entries_pushed(b);
}

/// Why bytes are no entry, if they are none: what is wrong first.
pub open spec fn refusal(s: Seq<u8>) -> Option<crate::error::ErrorView> {
    let n = crate::format::u16_at(s, 0);
    let at = 2 + n;
    let m = crate::format::u16_at(s, at + 57);
    if s.len() < 2 || s.len() < at {
        Some(crate::error::eof())
    } else if !valid_utf8(s.subrange(2, at)) {
        Some(crate::error::ErrorView::Utf8)
    } else if s.len() < at + 1 {
        Some(crate::error::eof())
    } else if s[at] > 2 {
        Some(crate::error::ErrorView::Corrupt("unknown entry kind"@))
    } else if s.len() < at + 57 {
        Some(crate::error::eof())
    } else if s[at] < 2 {
        None
    } else if s.len() < at + 59 || s.len() < at + 59 + m {
        Some(crate::error::eof())
    } else if !valid_utf8(s.subrange(at + 59, at + 59 + m)) {
        Some(crate::error::ErrorView::Utf8)
    } else {
        None
    }
}

/// Up to where bytes that are refused as an entry are read: to the end where they
/// end too early, and else behind the text or the kind that is wrong.
pub open spec fn refused_at(s: Seq<u8>) -> int {
    let at = 2 + crate::format::u16_at(s, 0);
    if refusal(s) == Some(crate::error::eof()) {
        s.len() as int
    } else if !valid_utf8(s.subrange(2, at)) {
        at
    } else if s[at] > 2 {
        at + 1
    } else {
        at + 59 + crate::format::u16_at(s, at + 57)
    }
}

/// Bytes are read as an entry exactly if nothing is wrong with them, and are
/// otherwise refused for what is wrong first.
pub proof fn law_entry_is_refused_for_what_is_wrong()
    ensures
        forall|r: &mut &[u8], res: Result<Entry>| #[trigger]
            call_ensures(Entry::read_from, (r,), res) ==> match refusal(r@) {
                None => res is Ok,
                Some(e) => (res matches Err(x) && x@ == e) && final(r)@ == r@.skip(
                    refused_at(r@),
                ),
            },
{
    assert forall|r: &mut &[u8], res: Result<Entry>| #[trigger]
        call_ensures(Entry::read_from, (r,), res) implies match refusal(r@) {
        None => res is Ok,
        Some(e) => (res matches Err(x) && x@ == e) && final(r)@ == r@.skip(refused_at(r@)),
    } by {
        let s = r@;
        crate::format::lemma_numbers_at(s, 0);
        if s.len() >= 2 {
            let at = 2 + crate::format::u16_at(s, 0);
            crate::format::lemma_numbers_at(s, at + 57);
        }
    }
}

/// A copy of an entry is the same in every field.
pub proof fn law_copied_entry(e: Entry, copy: Entry)
    requires
        call_ensures(<Entry as Clone>::clone, (&e,), copy),
    ensures
        copy.path@ == e.path@,
        copy.kind == e.kind,
        copy.mode == e.mode,
        copy.mtime_sec == e.mtime_sec,
        copy.mtime_nsec == e.mtime_nsec,
        copy.uncompressed_size == e.uncompressed_size,
        copy.frame_compressed_size == e.frame_compressed_size,
        copy.frame_offset == e.frame_offset,
        copy.block_offset == e.block_offset,
        copy.content_xxh3 == e.content_xxh3,
        copy.link_target is Some <==> e.link_target is Some,
        target_of(copy) == target_of(e),
{
}

/// An index is read entry by entry: the first from behind the count, and the
/// others like an index that counts one less. What goes wrong first is what is
/// reported.
pub proof fn law_index_is_read_entry_by_entry()
    ensures
        forall|r: &mut &[u8], all: Result<Vec<Entry>>| #[trigger]
            call_ensures(read_index, (r,), all) ==> {
                &&& r@.len() < 4 ==> (all matches Err(x) && x@ == crate::error::eof())
                &&& r@.len() >= 4 && crate::format::u32_at(r@, 0) == 0 ==> (all matches Ok(found)
                    && found@.len() == 0) && final(r)@ == r@.skip(4)
            },
        forall|
            r: &mut &[u8],
            all: Result<Vec<Entry>>,
            s: &mut &[u8],
            first: Result<Entry>,
            t: &mut &[u8],
            others: Result<Vec<Entry>>,
        | #[trigger]
            call_ensures(read_index, (r,), all) && #[trigger]
            call_ensures(Entry::read_from, (s,), first) && #[trigger]
            call_ensures(read_index, (t,), others) && r@.len() >= 4 && crate::format::u32_at(r@, 0)
                > 0 && s@ == r@.skip(4) && t@.len() >= 4 && crate::format::u32_at(t@, 0)
                == crate::format::u32_at(r@, 0) - 1 && t@.skip(4) == final(s)@ ==> match first {
                Err(e) => all matches Err(x) && x@ == e@,
                Ok(one) => match others {
                    Err(e) => all matches Err(x) && x@ == e@,
                    Ok(rest) => (all matches Ok(found) && index::views(found@) == seq![one@]
                        + index::views(rest@)) && final(r)@ == final(t)@,
                },
            },
{
    assert forall|r: &mut &[u8], all: Result<Vec<Entry>>| #[trigger]
        call_ensures(read_index, (r,), all) implies {
        &&& r@.len() < 4 ==> (all matches Err(x) && x@ == crate::error::eof())
        &&& r@.len() >= 4 && crate::format::u32_at(r@, 0) == 0 ==> (all matches Ok(found)
            && found@.len() == 0) && final(r)@ == r@.skip(4)
    } by {
        crate::format::lemma_numbers_at(r@, 0);
        if let Ok(found) = all {
            assert(index::views(found@).len() == found@.len());
        }
    }
    assert forall|
        r: &mut &[u8],
        all: Result<Vec<Entry>>,
        s: &mut &[u8],
        first: Result<Entry>,
        t: &mut &[u8],
        others: Result<Vec<Entry>>,
    | #[trigger]
        call_ensures(read_index, (r,), all) && #[trigger]
        call_ensures(Entry::read_from, (s,), first) && #[trigger]
        call_ensures(read_index, (t,), others) && r@.len() >= 4 && crate::format::u32_at(r@, 0) > 0
            && s@ == r@.skip(4) && t@.len() >= 4 && crate::format::u32_at(t@, 0)
            == crate::format::u32_at(r@, 0) - 1 && t@.skip(4) == final(s)@ implies match first {
        Err(e) => all matches Err(x) && x@ == e@,
        Ok(one) => match others {
            Err(e) => all matches Err(x) && x@ == e@,
            Ok(rest) => (all matches Ok(found) && index::views(found@) == seq![one@]
                + index::views(rest@)) && final(r)@ == final(t)@,
        },
    } by {
        lemma_read_step(r@, t@);
    }
}

/// Reading an index, and one that counts one less behind the first entry.
#[verifier::rlimit(60)]
proof fn lemma_read_step(s: Seq<u8>, t: Seq<u8>)
    requires
        s.len() >= 4,
        t.len() >= 4,
        crate::format::u32_at(s, 0) > 0,
        crate::format::u32_at(t, 0) == crate::format::u32_at(s, 0) - 1,
    ensures
        match index::parse_entry(s.skip(4)) {
            Err(e) => index::parse_index(s) == Err::<(Seq<EntryView>, int), _>(e),
            Ok((one, len)) => t.skip(4) == s.skip(4).skip(len) ==> match index::parse_index(t) {
                Err(e) => index::parse_index(s) == Err::<(Seq<EntryView>, int), _>(e),
                Ok((rest, n)) => index::parse_index(s) matches Ok((all, m)) && all == seq![one]
                    + rest && s.skip(m) == t.skip(n),
            },
        },
{
    crate::format::lemma_numbers_at(s, 0);
    crate::format::lemma_numbers_at(t, 0);
    let count = crate::format::u32_at(s, 0) as nat;
    index::lemma_parse_entry_len(s.skip(4));
    if let Ok((one, len)) = index::parse_entry(s.skip(4)) {
        let rest = s.skip(4).skip(len);
        if t.skip(4) == rest {
            assert((count - 1) as nat == crate::format::u32_at(t, 0));
            if let Ok((found, n)) = index::parse_entries(rest, (count - 1) as nat) {
                lemma_entries_len(rest, (count - 1) as nat);
                assert(s.skip(4 + len + n) =~= rest.skip(n));
                assert(t.skip(4 + n) =~= t.skip(4).skip(n));
            }
        }
    }
}

/// Entries that were read lie within the bytes.
proof fn lemma_entries_len(s: Seq<u8>, count: nat)
    ensures
        index::parse_entries(s, count) matches Ok((found, n)) ==> 0 <= n <= s.len(),
    decreases count,
{
    if count > 0 {
        index::lemma_parse_entry_len(s);
        if let Ok((one, len)) = index::parse_entry(s) {
            lemma_entries_len(s.skip(len), (count - 1) as nat);
        }
    }
}

} // verus!
