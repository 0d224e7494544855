//! The index of an archive: one entry for each file, directory and link.

use crate::bytes;
use crate::error;
use crate::error::{Error, ErrorView, Result};
use crate::format::{advance, copy_range, ended, put_bytes, EntryKind};
use crate::text;
use vstd::prelude::*;
use vstd::utf8::*;

verus! {

/// One file, directory or link of the archive. In solid mode several entries
/// share `frame_offset` and `frame_compressed_size`; `block_offset` then says
/// where in the decoded frame a file begins.
#[derive(Debug)]
pub struct Entry {
    pub path: String,
    pub kind: EntryKind,
    pub mode: u32,
    pub mtime_sec: i64,
    pub mtime_nsec: u32,
    pub uncompressed_size: u64,
    pub frame_compressed_size: u64,
    pub frame_offset: u64,
    pub block_offset: u64,
    pub content_xxh3: u64,
    pub link_target: Option<String>,
}

/// An [`Entry`] with its texts as sequences of characters.
pub struct EntryView {
    pub path: Seq<char>,
    pub kind: EntryKind,
    pub mode: u32,
    pub mtime_sec: i64,
    pub mtime_nsec: u32,
    pub uncompressed_size: u64,
    pub frame_compressed_size: u64,
    pub frame_offset: u64,
    pub block_offset: u64,
    pub content_xxh3: u64,
    pub link_target: Option<Seq<char>>,
}

impl View for Entry {
    type V = EntryView;

    open spec fn view(&self) -> EntryView {
        EntryView {
            path: self.path@,
            kind: self.kind,
            mode: self.mode,
            mtime_sec: self.mtime_sec,
            mtime_nsec: self.mtime_nsec,
            uncompressed_size: self.uncompressed_size,
            frame_compressed_size: self.frame_compressed_size,
            frame_offset: self.frame_offset,
            block_offset: self.block_offset,
            content_xxh3: self.content_xxh3,
            link_target: match self.link_target {
                Some(target) => Some(target@),
                None => None,
            },
        }
    }
}

impl Clone for Entry {
    fn clone(&self) -> (copy: Self)
        ensures
            copy@ == self@,
    {
        Entry {
            path: self.path.clone(),
            kind: self.kind,
            mode: self.mode,
            mtime_sec: self.mtime_sec,
            mtime_nsec: self.mtime_nsec,
            uncompressed_size: self.uncompressed_size,
            frame_compressed_size: self.frame_compressed_size,
            frame_offset: self.frame_offset,
            block_offset: self.block_offset,
            content_xxh3: self.content_xxh3,
            link_target: match &self.link_target {
                Some(target) => Some(target.clone()),
                None => None,
            },
        }
    }
}

/// The entries with their texts as sequences of characters.
pub open spec fn views(entries: Seq<Entry>) -> Seq<EntryView> {
    Seq::new(entries.len(), |i: int| entries[i]@)
}

/// What a write appends, and the error that ends it, if one does.
pub struct Written {
    pub bytes: Seq<u8>,
    pub fault: Option<ErrorView>,
}

impl EntryView {
    /// Where a link points to; nothing where no target was given.
    pub open spec fn target_text(self) -> Seq<char> {
        match self.link_target {
            Some(target) => target,
            None => Seq::empty(),
        }
    }

    /// The entry as the index keeps it: a target for a link, even an empty
    /// one, and none for anything else.
    pub open spec fn canonical(self) -> EntryView {
        EntryView {
            link_target: if self.kind == EntryKind::Symlink {
                Some(self.target_text())
            } else {
                None
            },
            ..self
        }
    }
}

/// The bytes of an entry up to the target of a link.
pub open spec fn entry_base(e: EntryView) -> Seq<u8> {
    bytes::le_bytes(encode_utf8(e.path).len(), 2) + encode_utf8(e.path) + seq![e.kind.code_spec()]
        + bytes::le_bytes(e.mode as nat, 4) + bytes::le_bytes(bytes::i64_bits(e.mtime_sec), 8)
        + bytes::le_bytes(e.mtime_nsec as nat, 4) + bytes::le_bytes(e.uncompressed_size as nat, 8)
        + bytes::le_bytes(e.frame_compressed_size as nat, 8) + bytes::le_bytes(
        e.frame_offset as nat,
        8,
    ) + bytes::le_bytes(e.block_offset as nat, 8) + bytes::le_bytes(e.content_xxh3 as nat, 8)
}

/// The text of the error for something that has too many bytes.
pub open spec fn too_long_text(what: Seq<char>, len: nat) -> Seq<char> {
    what + text::decimal_text(len) + " bytes)"@
}

/// What writing an entry appends.
pub open spec fn entry_write(e: EntryView) -> Written {
    let path = encode_utf8(e.path);
    let target = encode_utf8(e.target_text());
    if path.len() > 0xFFFF {
        Written {
            bytes: Seq::empty(),
            fault: Some(
                ErrorView::InvalidPath(too_long_text("path too long ("@, path.len())),
            ),
        }
    } else if e.kind != EntryKind::Symlink {
        Written { bytes: entry_base(e), fault: None }
    } else if target.len() > 0xFFFF {
        Written {
            bytes: entry_base(e),
            fault: Some(
                ErrorView::InvalidPath(too_long_text("symlink target too long ("@, target.len())),
            ),
        }
    } else {
        Written {
            bytes: entry_base(e) + bytes::le_bytes(target.len(), 2) + target,
            fault: None,
        }
    }
}

/// What writing entries one after the other appends, up to the first that
/// cannot be written.
pub open spec fn entries_write(entries: Seq<EntryView>) -> Written
    decreases entries.len(),
{
    if entries.len() == 0 {
        Written { bytes: Seq::empty(), fault: None }
    } else {
        let first = entry_write(entries[0]);
        if first.fault is Some {
            first
        } else {
            let rest = entries_write(entries.drop_first());
            Written { bytes: first.bytes + rest.bytes, fault: rest.fault }
        }
    }
}

/// What writing an index appends.
pub open spec fn index_write(entries: Seq<EntryView>) -> Written {
    if entries.len() > 0xFFFF_FFFF {
        Written {
            bytes: Seq::empty(),
            fault: Some(ErrorView::Corrupt("too many entries"@)),
        }
    } else {
        let all = entries_write(entries);
        Written { bytes: bytes::le_bytes(entries.len(), 4) + all.bytes, fault: all.fault }
    }
}

/// A text with a 16-bit length before it, at `at`, and where it ends.
pub open spec fn parse_text(s: Seq<u8>, at: int) -> core::result::Result<
    (Seq<char>, int),
    ErrorView,
> {
    if s.len() < at + 2 {
        Err(error::eof())
    } else {
        let end = text_end(s, at);
        if s.len() < end {
            Err(error::eof())
        } else if !valid_utf8(s.subrange(at + 2, end)) {
            Err(ErrorView::Utf8)
        } else {
            Ok((decode_utf8(s.subrange(at + 2, end)), end))
        }
    }
}

/// The entry whose numbers stand from `at` on.
pub open spec fn entry_at(
    s: Seq<u8>,
    at: int,
    path: Seq<char>,
    kind: EntryKind,
    link_target: Option<Seq<char>>,
) -> EntryView {
    EntryView {
        path,
        kind,
        mode: bytes::le_value(s.subrange(at, at + 4)) as u32,
        mtime_sec: bytes::i64_from_bits(bytes::le_value(s.subrange(at + 4, at + 12))),
        mtime_nsec: bytes::le_value(s.subrange(at + 12, at + 16)) as u32,
        uncompressed_size: bytes::le_value(s.subrange(at + 16, at + 24)) as u64,
        frame_compressed_size: bytes::le_value(s.subrange(at + 24, at + 32)) as u64,
        frame_offset: bytes::le_value(s.subrange(at + 32, at + 40)) as u64,
        block_offset: bytes::le_value(s.subrange(at + 40, at + 48)) as u64,
        content_xxh3: bytes::le_value(s.subrange(at + 48, at + 56)) as u64,
        link_target,
    }
}

/// The entry at the front of `s` and its length, or the first thing wrong
/// with it.
pub open spec fn parse_entry(s: Seq<u8>) -> core::result::Result<(EntryView, int), ErrorView> {
    match parse_text(s, 0) {
        Err(e) => Err(e),
        Ok((path, at)) => if s.len() < at + 1 {
            Err(error::eof())
        } else {
            match EntryKind::decode(s[at]) {
                Err(e) => Err(e),
                Ok(kind) => if s.len() < at + 57 {
                    Err(error::eof())
                } else if kind != EntryKind::Symlink {
                    Ok((entry_at(s, at + 1, path, kind, None), at + 57))
                } else {
                    match parse_text(s, at + 57) {
                        Err(e) => Err(e),
                        Ok((target, end)) => Ok(
                            (entry_at(s, at + 1, path, kind, Some(target)), end),
                        ),
                    }
                },
            }
        },
    }
}

/// Where a text at `at`, which has its length before it, ends.
pub open spec fn text_end(s: Seq<u8>, at: int) -> int {
    at + 2 + bytes::le_value(s.subrange(at, at + 2))
}

/// How many bytes are read of an entry that has something wrong with it: up to
/// what is wrong, and all of them where they end too early.
pub open spec fn entry_stop(s: Seq<u8>) -> int {
    if parse_entry(s) == Err::<(EntryView, int), ErrorView>(error::eof()) {
        s.len() as int
    } else {
        match parse_text(s, 0) {
            Err(_) => text_end(s, 0),
            Ok((path, at)) => if EntryKind::decode(s[at]) is Err {
                at + 1
            } else {
                text_end(s, at + 57)
            },
        }
    }
}

/// How many bytes are read of entries that have something wrong with them.
pub open spec fn entries_stop(s: Seq<u8>, count: nat) -> int
    decreases count,
{
    if count == 0 {
        0
    } else {
        match parse_entry(s) {
            Err(_) => entry_stop(s),
            Ok((first, len)) => len + entries_stop(s.skip(len), (count - 1) as nat),
        }
    }
}

/// How many bytes are read of an index that has something wrong with it.
pub open spec fn index_stop(s: Seq<u8>) -> int {
    if s.len() < 4 {
        s.len() as int
    } else {
        4 + entries_stop(s.skip(4), bytes::le_value(s.subrange(0, 4)))
    }
}

/// `count` entries from the front of `s` on and their length together, or the
/// first thing wrong with them.
pub open spec fn parse_entries(s: Seq<u8>, count: nat) -> core::result::Result<
    (Seq<EntryView>, int),
    ErrorView,
>
    decreases count,
{
    if count == 0 {
        Ok((Seq::empty(), 0))
    } else {
        match parse_entry(s) {
            Err(e) => Err(e),
            Ok((first, len)) => match parse_entries(s.skip(len), (count - 1) as nat) {
                Err(e) => Err(e),
                Ok((rest, rest_len)) => Ok((seq![first] + rest, len + rest_len)),
            },
        }
    }
}

/// The index at the front of `s` and its length, or the first thing wrong
/// with it.
pub open spec fn parse_index(s: Seq<u8>) -> core::result::Result<(Seq<EntryView>, int), ErrorView> {
    if s.len() < 4 {
        Err(error::eof())
    } else {
        match parse_entries(s.skip(4), bytes::le_value(s.subrange(0, 4))) {
            Err(e) => Err(e),
            Ok((entries, len)) => Ok((entries, len + 4)),
        }
    }
}

/// Every parse stays within the bytes.
pub(crate) proof fn lemma_parse_entry_len(s: Seq<u8>)
    ensures
        parse_entry(s) matches Ok((e, len)) ==> 0 < len <= s.len(),
        parse_entry(s) matches Ok((e, len)) ==> (e.link_target is Some <==> e.kind
            == EntryKind::Symlink),
        parse_entry(s) is Err ==> 0 <= entry_stop(s) <= s.len(),
{
}

/// Reads a text with a 16-bit length before it, from `at` on in `data`, of which
/// `r` is what has not been read yet, and moves `r` behind it. Also says where
/// the text ends.
fn read_text(r: &mut &[u8], data: &[u8], at: usize) -> (res: Result<(String, usize)>)
    requires
        at <= data@.len(),
        old(r)@ == data@.skip(at as int),
    ensures
        match parse_text(data@, at as int) {
            Ok((chars, end)) => (res matches Ok((s, e)) && s@ == chars && e == end && e
                <= data@.len()) && final(r)@ == data@.skip(end),
            Err(e) => (res matches Err(x) && x@ == e) && final(r)@ == if e == error::eof() {
                Seq::empty()
            } else {
                data@.skip(text_end(data@, at as int))
            },
        },
{
    let len: usize = data.len();
    if len - at < 2 {
        return Err(ended(r));
    }
    let size: usize = bytes::get_u16(data, at) as usize;
    if len - at - 2 < size {
        return Err(ended(r));
    }
    let end: usize = at + 2 + size;
    advance(r, 2 + size);
    assert(r@ =~= data@.skip(end as int));
    match String::from_utf8(copy_range(data, at + 2, end)) {
        Ok(s) => Ok((s, end)),
        Err(e) => Err(Error::Utf8(e)),
    }
}

/// An error for something that has too many bytes.
fn too_long(what: &str, len: usize) -> (e: Error)
    ensures
        e@ == ErrorView::InvalidPath(too_long_text(what@, len as nat)),
{
    let mut message = text::joined(what, text::decimal(len as u64).as_str());
    message.append(" bytes)");
    Error::InvalidPath(message)
}

impl Entry {
    /// Appends the entry. A path, or the target of a link, of more than 65535
    /// bytes is refused.
    pub fn write_to(&self, w: &mut Vec<u8>) -> (res: Result<()>)
        ensures
            final(w)@ == old(w)@ + entry_write(self@).bytes,
            match entry_write(self@).fault {
                None => res is Ok,
                Some(e) => res matches Err(x) && x@ == e,
            },
    {
        let path: &[u8] = self.path.as_str().as_bytes();
        if path.len() > 0xFFFF {
            assert(w@ =~= old(w)@ + Seq::empty());
            return Err(too_long("path too long (", path.len()));
        }
        bytes::put_u16(w, path.len() as u16);
        put_bytes(w, path);
        w.push(self.kind.code());
        bytes::put_u32(w, self.mode);
        bytes::put_i64(w, self.mtime_sec);
        bytes::put_u32(w, self.mtime_nsec);
        bytes::put_u64(w, self.uncompressed_size);
        bytes::put_u64(w, self.frame_compressed_size);
        bytes::put_u64(w, self.frame_offset);
        bytes::put_u64(w, self.block_offset);
        bytes::put_u64(w, self.content_xxh3);
        let ghost base = w@;
        assert(base =~= old(w)@ + entry_base(self@));
        if self.kind == EntryKind::Symlink {
            let target: &str = match &self.link_target {
                Some(target) => target.as_str(),
                None => "",
            };
            proof {
                reveal_strlit("");
                assert(target@ =~= self@.target_text());
            }
            let target: &[u8] = target.as_bytes();
            if target.len() > 0xFFFF {
                return Err(too_long("symlink target too long (", target.len()));
            }
            bytes::put_u16(w, target.len() as u16);
            put_bytes(w, target);
            assert(w@ =~= old(w)@ + entry_write(self@).bytes);
        }
        Ok(())
    }

    /// Reads the entry at the front of `r` and moves `r` behind it. Where that
    /// fails, `r` stands behind what was read.
    pub fn read_from(r: &mut &[u8]) -> (res: Result<Self>)
        ensures
            match parse_entry(old(r)@) {
                Ok((e, len)) => (res matches Ok(x) && x@ == e) && final(r)@ == old(r)@.skip(len),
                Err(e) => (res matches Err(x) && x@ == e) && final(r)@ == old(r)@.skip(
                    entry_stop(old(r)@),
                ),
            },
    {
        let data: &[u8] = *r;
        let len: usize = data.len();
        proof {
            assert(data@.skip(len as int) =~= Seq::empty());
            assert(data@.skip(0) =~= data@);
        }
        let (path, at) = match read_text(r, data, 0) {
            Ok(found) => found,
            Err(e) => {
                return Err(e);
            },
        };
        if len - at < 1 {
            return Err(ended(r));
        }
        let kind = match EntryKind::from_u8(data[at]) {
            Ok(kind) => kind,
            Err(e) => {
                advance(r, 1);
                assert(r@ =~= data@.skip(at + 1));
                return Err(e);
            },
        };
        if len - at < 57 {
            return Err(ended(r));
        }
        advance(r, 57);
        assert(r@ =~= data@.skip(at + 57));
        let mut link_target: Option<String> = None;
        if kind == EntryKind::Symlink {
            match read_text(r, data, at + 57) {
                Ok((target, _)) => {
                    link_target = Some(target);
                },
                Err(e) => {
                    return Err(e);
                },
            }
        }
        let entry = Entry {
            path,
            kind,
            mode: bytes::get_u32(data, at + 1),
            mtime_sec: bytes::get_i64(data, at + 5),
            mtime_nsec: bytes::get_u32(data, at + 13),
            uncompressed_size: bytes::get_u64(data, at + 17),
            frame_compressed_size: bytes::get_u64(data, at + 25),
            frame_offset: bytes::get_u64(data, at + 33),
            block_offset: bytes::get_u64(data, at + 41),
            content_xxh3: bytes::get_u64(data, at + 49),
            link_target,
        };
        Ok(entry)
    }
}

/// Appends an index of the entries.
pub fn write_index(w: &mut Vec<u8>, entries: &[Entry]) -> (res: Result<()>)
    ensures
        final(w)@ == old(w)@ + index_write(views(entries@)).bytes,
        match index_write(views(entries@)).fault {
            None => res is Ok,
            Some(e) => res matches Err(x) && x@ == e,
        },
{
    let count: usize = entries.len();
    if count as u64 > 0xFFFF_FFFF {
        assert(w@ =~= old(w)@ + Seq::empty());
        return Err(Error::Corrupt("too many entries"));
    }
    bytes::put_u32(w, count as u32);
    let ghost start = w@;
    let ghost all = views(entries@);
    let mut i: usize = 0;
    assert(all.skip(0) =~= all);
    while i < count
        invariant
            i <= count == entries@.len(),
            all == views(entries@),
            start + entries_write(all).bytes == w@ + entries_write(all.skip(i as int)).bytes,
            entries_write(all).fault == entries_write(all.skip(i as int)).fault,
            old(w)@ + index_write(all).bytes == start + entries_write(all).bytes,
            index_write(all).fault == entries_write(all).fault,
        decreases count - i,
    {
        let ghost rest = all.skip(i as int);
        let ghost first = entry_write(entries@[i as int]@);
        proof {
            assert(rest[0] == entries@[i as int]@);
            assert(rest.drop_first() =~= all.skip(i + 1));
            assert(w@ + (first.bytes + entries_write(all.skip(i + 1)).bytes) =~= (w@ + first.bytes)
                + entries_write(all.skip(i + 1)).bytes);
        }
        match entries[i].write_to(w) {
            Ok(_) => {},
            Err(e) => {
                return Err(e);
            },
        }
        i = i + 1;
    }
    proof {
        assert(all.skip(count as int).len() == 0);
        assert(w@ + Seq::<u8>::empty() =~= w@);
    }
    Ok(())
}

/// Reads the index at the front of `r` and moves `r` behind it. Where that
/// fails, `r` stands behind what was read.
#[verifier::rlimit(60)]
pub fn read_index(r: &mut &[u8]) -> (res: Result<Vec<Entry>>)
    ensures
        match parse_index(old(r)@) {
            Ok((entries, len)) => (res matches Ok(x) && views(x@) == entries) && final(r)@
                == old(r)@.skip(len),
            Err(e) => (res matches Err(x) && x@ == e) && final(r)@ == old(r)@.skip(
                index_stop(old(r)@),
            ),
        },
{
    let data: &[u8] = *r;
    if data.len() < 4 {
        assert(data@.skip(data@.len() as int) =~= Seq::empty());
        return Err(ended(r));
    }
    let count: u32 = bytes::get_u32(data, 0);
    advance(r, 4);
    let mut out: Vec<Entry> = Vec::new();
    let mut i: u32 = 0;
    let ghost body = r@;
    let ghost mut used: int = 0;
    proof {
        assert(body =~= data@.skip(4));
        assert(body.skip(0) =~= body);
        if let Ok((es, l)) = parse_entries(body, count as nat) {
            assert(views(out@) + es =~= es);
        }
    }
    while i < count
        invariant
            i <= count,
            0 <= used <= body.len(),
            r@ == body.skip(used),
            used + entries_stop(r@, (count - i) as nat) == entries_stop(body, count as nat),
            match parse_entries(r@, (count - i) as nat) {
                Ok((es, l)) => parse_entries(body, count as nat) == Ok::<_, ErrorView>(
                    (views(out@) + es, used + l),
                ),
                Err(e) => parse_entries(body, count as nat) == Err::<(Seq<EntryView>, int), _>(e),
            },
            data@ == old(r)@,
            data@.len() >= 4,
            body == data@.skip(4),
            count == bytes::le_value(data@.subrange(0, 4)),
        decreases count - i,
    {
        let ghost before = r@;
        let ghost seen = views(out@);
        proof {
            lemma_parse_entry_len(before);
        }
        match Entry::read_from(r) {
            Ok(entry) => {
                proof {
                    let (e, l) = parse_entry(before)->Ok_0;
                    assert(before.skip(l) =~= body.skip(used + l));
                    used = used + l;
                    if let Ok((es, k)) = parse_entries(r@, (count - i - 1) as nat) {
                        assert(seen + (seq![e] + es) =~= seen.push(e) + es);
                    }
                }
                out.push(entry);
                assert(views(out@) =~= seen.push(entry@));
            },
            Err(e) => {
                assert(before.skip(entry_stop(before)) =~= data@.skip(
                    4 + used + entry_stop(before),
                ));
                return Err(e);
            },
        }
        i = i + 1;
    }
    proof {
        assert(views(out@) + Seq::<EntryView>::empty() =~= views(out@));
        assert(body.skip(used) =~= data@.skip(used + 4));
    }
    Ok(out)
}

/// A text with its length before it, followed by anything, reads back.
proof fn lemma_text_round_trip(before: Seq<u8>, chars: Seq<char>, rest: Seq<u8>)
    requires
        encode_utf8(chars).len() <= 0xFFFF,
    ensures
        ({
            let encoded = encode_utf8(chars);
            let s = before + (bytes::le_bytes(encoded.len(), 2) + encoded) + rest;
            parse_text(s, before.len() as int) == Ok::<(Seq<char>, int), ErrorView>(
                (chars, before.len() as int + 2 + encoded.len()),
            )
        }),
{
    let encoded = encode_utf8(chars);
    let at = before.len() as int;
    let s = before + (bytes::le_bytes(encoded.len(), 2) + encoded) + rest;
    bytes::lemma_le_limits();
    bytes::lemma_le_bytes_len(encoded.len(), 2);
    bytes::lemma_le_value_of_bytes(encoded.len(), 2);
    text::lemma_utf8_round_trip(chars);
    assert(s.subrange(at, at + 2) =~= bytes::le_bytes(encoded.len(), 2));
    assert(s.subrange(at + 2, at + 2 + encoded.len()) =~= encoded);
}

/// The numbers of an entry, wherever they stand, read back.
proof fn lemma_base_round_trip(e: EntryView, rest: Seq<u8>, link_target: Option<Seq<char>>)
    requires
        encode_utf8(e.path).len() <= 0xFFFF,
    ensures
        ({
            let s = entry_base(e) + rest;
            let at = 2 + encode_utf8(e.path).len() as int;
            &&& parse_text(s, 0) == Ok::<(Seq<char>, int), ErrorView>((e.path, at))
            &&& s[at] == e.kind.code_spec()
            &&& entry_at(s, at + 1, e.path, e.kind, link_target) == (EntryView {
                link_target,
                ..e
            })
            &&& entry_base(e).len() == at + 57
        }),
{
    let s = entry_base(e) + rest;
    let path = encode_utf8(e.path);
    let at = 2 + path.len() as int;
    let head = bytes::le_bytes(path.len(), 2) + path;
    bytes::lemma_le_limits();
    bytes::lemma_i64_bits(e.mtime_sec);
    bytes::lemma_le_bytes_len(path.len(), 2);
    bytes::lemma_le_bytes_len(e.mode as nat, 4);
    bytes::lemma_le_bytes_len(bytes::i64_bits(e.mtime_sec), 8);
    bytes::lemma_le_bytes_len(e.mtime_nsec as nat, 4);
    bytes::lemma_le_bytes_len(e.uncompressed_size as nat, 8);
    bytes::lemma_le_bytes_len(e.frame_compressed_size as nat, 8);
    bytes::lemma_le_bytes_len(e.frame_offset as nat, 8);
    bytes::lemma_le_bytes_len(e.block_offset as nat, 8);
    bytes::lemma_le_bytes_len(e.content_xxh3 as nat, 8);
    bytes::lemma_le_value_of_bytes(e.mode as nat, 4);
    bytes::lemma_le_value_of_bytes(bytes::i64_bits(e.mtime_sec), 8);
    bytes::lemma_le_value_of_bytes(e.mtime_nsec as nat, 4);
    bytes::lemma_le_value_of_bytes(e.uncompressed_size as nat, 8);
    bytes::lemma_le_value_of_bytes(e.frame_compressed_size as nat, 8);
    bytes::lemma_le_value_of_bytes(e.frame_offset as nat, 8);
    bytes::lemma_le_value_of_bytes(e.block_offset as nat, 8);
    bytes::lemma_le_value_of_bytes(e.content_xxh3 as nat, 8);
    lemma_text_round_trip(Seq::empty(), e.path, s.skip(at));
    assert(Seq::<u8>::empty() + head + s.skip(at) =~= s);
    assert(s.subrange(at + 1, at + 5) =~= bytes::le_bytes(e.mode as nat, 4));
    assert(s.subrange(at + 5, at + 13) =~= bytes::le_bytes(bytes::i64_bits(e.mtime_sec), 8));
    assert(s.subrange(at + 13, at + 17) =~= bytes::le_bytes(e.mtime_nsec as nat, 4));
    assert(s.subrange(at + 17, at + 25) =~= bytes::le_bytes(e.uncompressed_size as nat, 8));
    assert(s.subrange(at + 25, at + 33) =~= bytes::le_bytes(e.frame_compressed_size as nat, 8));
    assert(s.subrange(at + 33, at + 41) =~= bytes::le_bytes(e.frame_offset as nat, 8));
    assert(s.subrange(at + 41, at + 49) =~= bytes::le_bytes(e.block_offset as nat, 8));
    assert(s.subrange(at + 49, at + 57) =~= bytes::le_bytes(e.content_xxh3 as nat, 8));
}

/// Reading a written entry gives the entry back, whatever follows it, with the
/// link target that its kind calls for.
pub proof fn law_entry_round_trip(e: EntryView, rest: Seq<u8>)
    requires
        entry_write(e).fault is None,
    ensures
        parse_entry(entry_write(e).bytes + rest) == Ok::<(EntryView, int), ErrorView>(
            (e.canonical(), entry_write(e).bytes.len() as int),
        ),
{
    let base = entry_base(e);
    let s = entry_write(e).bytes + rest;
    if e.kind == EntryKind::Symlink {
        let target = encode_utf8(e.target_text());
        let tail = bytes::le_bytes(target.len(), 2) + target;
        bytes::lemma_le_bytes_len(target.len(), 2);
        assert(s =~= base + (tail + rest));
        lemma_base_round_trip(e, tail + rest, Some(e.target_text()));
        lemma_text_round_trip(base, e.target_text(), rest);
        assert(base + tail + rest =~= s);
    } else {
        lemma_base_round_trip(e, rest, None);
    }
}

proof fn lemma_regroup(first: Seq<u8>, second: Seq<u8>, third: Seq<u8>)
    ensures
        first + second + third == first + (second + third),
        (first + second + third).skip(first.len() as int) == second + third,
        (first + second).len() == first.len() + second.len(),
{
    assert(first + second + third =~= first + (second + third));
    assert((first + second + third).skip(first.len() as int) =~= second + third);
}

proof fn lemma_parse_entries_step(
    s: Seq<u8>,
    count: nat,
    first: EntryView,
    len: int,
    others: Seq<EntryView>,
    others_len: int,
)
    requires
        count > 0,
        parse_entry(s) == Ok::<(EntryView, int), ErrorView>((first, len)),
        parse_entries(s.skip(len), (count - 1) as nat) == Ok::<(Seq<EntryView>, int), ErrorView>(
            (others, others_len),
        ),
    ensures
        parse_entries(s, count) == Ok::<(Seq<EntryView>, int), ErrorView>(
            (seq![first] + others, len + others_len),
        ),
{
}

/// Entries written one after the other read back one after the other.
proof fn lemma_entries_round_trip(entries: Seq<EntryView>, rest: Seq<u8>)
    requires
        entries_write(entries).fault is None,
    ensures
        parse_entries(entries_write(entries).bytes + rest, entries.len()) == Ok::<
            (Seq<EntryView>, int),
            ErrorView,
        >((canonical(entries), entries_write(entries).bytes.len() as int)),
    decreases entries.len(),
{
    let s = entries_write(entries).bytes + rest;
    if entries.len() > 0 {
        let first = entry_write(entries[0]).bytes;
        let others = entries_write(entries.drop_first()).bytes;
        lemma_entries_round_trip(entries.drop_first(), rest);
        law_entry_round_trip(entries[0], others + rest);
        lemma_regroup(first, others, rest);
        lemma_parse_entries_step(
            s,
            entries.len(),
            entries[0].canonical(),
            first.len() as int,
            canonical(entries.drop_first()),
            others.len() as int,
        );
        assert(canonical(entries) =~= seq![entries[0].canonical()] + canonical(
            entries.drop_first(),
        ));
    } else {
        assert(canonical(entries) =~= Seq::empty());
    }
}

/// The entries as an index keeps them.
pub open spec fn canonical(entries: Seq<EntryView>) -> Seq<EntryView> {
    Seq::new(entries.len(), |i: int| entries[i].canonical())
}

/// Reading a written index gives its entries back, in order, whatever follows
/// it.
pub proof fn law_index_round_trip(entries: Seq<EntryView>, rest: Seq<u8>)
    requires
        index_write(entries).fault is None,
    ensures
        parse_index(index_write(entries).bytes + rest) == Ok::<(Seq<EntryView>, int), ErrorView>(
            (canonical(entries), index_write(entries).bytes.len() as int),
        ),
{
    let all = entries_write(entries).bytes;
    let count = bytes::le_bytes(entries.len(), 4);
    let s = index_write(entries).bytes + rest;
    bytes::lemma_le_limits();
    bytes::lemma_le_bytes_len(entries.len(), 4);
    bytes::lemma_le_value_of_bytes(entries.len(), 4);
    lemma_entries_round_trip(entries, rest);
    assert(s.subrange(0, 4) =~= count);
    assert(s.skip(4) =~= all + rest);
}

/// An entry that was read is written as the very bytes it was read from.
pub proof fn law_entry_faithful(s: Seq<u8>)
    ensures
        parse_entry(s) matches Ok((e, len)) ==> {
            &&& entry_write(e).fault is None
            &&& entry_write(e).bytes == s.subrange(0, len)
        },
{
    if let Ok((e, len)) = parse_entry(s) {
        let (path, at) = parse_text(s, 0)->Ok_0;
        lemma_text_faithful(s, 0);
        lemma_numbers_faithful(s, at + 1, 4);
        lemma_numbers_faithful(s, at + 5, 8);
        lemma_numbers_faithful(s, at + 13, 4);
        lemma_numbers_faithful(s, at + 17, 8);
        lemma_numbers_faithful(s, at + 25, 8);
        lemma_numbers_faithful(s, at + 33, 8);
        lemma_numbers_faithful(s, at + 41, 8);
        lemma_numbers_faithful(s, at + 49, 8);
        bytes::lemma_le_limits();
        assert(entry_base(e) =~= s.subrange(0, at + 57));
        if e.kind == EntryKind::Symlink {
            lemma_text_faithful(s, at + 57);
            let target = encode_utf8(e.target_text());
            let tail = bytes::le_bytes(target.len(), 2) + target;
            assert(tail == s.subrange(at + 57, len));
            assert(entry_base(e) + bytes::le_bytes(target.len(), 2) + target =~= entry_base(e)
                + tail);
            assert(entry_base(e) + tail =~= s.subrange(0, len));
        }
    }
}

/// A number that was read is written as the bytes it was read from.
proof fn lemma_numbers_faithful(s: Seq<u8>, at: int, width: nat)
    requires
        0 <= at,
        at + width <= s.len(),
    ensures
        ({
            let part = s.subrange(at, at + width);
            &&& bytes::le_value(part) < bytes::le_limit(width)
            &&& bytes::le_bytes(bytes::le_value(part), width) == part
        }),
{
    bytes::lemma_le_bytes_of_value(s.subrange(at, at + width));
}

/// A text that was read is written as the bytes it was read from.
proof fn lemma_text_faithful(s: Seq<u8>, at: int)
    requires
        0 <= at,
    ensures
        parse_text(s, at) matches Ok((chars, end)) ==> {
            let encoded = encode_utf8(chars);
            &&& encoded.len() <= 0xFFFF
            &&& end == at + 2 + encoded.len()
            &&& bytes::le_bytes(encoded.len(), 2) + encoded == s.subrange(at, end)
        },
{
    if let Ok((chars, end)) = parse_text(s, at) {
        bytes::lemma_le_limits();
        lemma_numbers_faithful(s, at, 2);
        decode_utf8_encode_utf8(s.subrange(at + 2, end));
        assert(s.subrange(at, end) =~= s.subrange(at, at + 2) + s.subrange(at + 2, end));
    }
}

} // verus!
