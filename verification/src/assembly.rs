//! How an archive is put together: what each step of the writer adds.

use crate::codec;
use crate::codec::LONG_WINDOW_LOG;
use crate::crypto::{CipherAlgo, Encryption, KdfAlgo};
use crate::error;
use crate::error::{ErrorView, Result};
use crate::format::{
    EncryptionHeaderView, EntryKind, Footer, Header, FLAG_ENCRYPTED, VERSION_MAJOR, VERSION_MINOR,
};
use crate::frame;
use crate::index;
use crate::index::EntryView;
use crate::path;
use vstd::prelude::*;

verus! {

/// A shared frame as contracts speak of it: where it will lie, what went into
/// it, and the entries that still wait for its size.
pub struct BlockView {
    pub frame_offset: u64,
    pub raw_bytes: u64,
    pub input: Seq<u8>,
    pub settings: (i32, Option<u32>, bool, u32),
    pub pending: Seq<usize>,
}

/// A file that is being added, as contracts speak of it. Its bytes go straight
/// into a frame once it is `placed`; until then they are held back, because the
/// shared frame holds bytes of others and may be too small for it.
pub struct FileView {
    pub path: Seq<char>,
    pub mode: u32,
    pub mtime_sec: i64,
    pub mtime_nsec: u32,
    pub block_offset: u64,
    pub placed: bool,
    pub seen: Seq<u8>,
    pub own_frame: Option<(Seq<u8>, (i32, Option<u32>, bool, u32))>,
}

/// What a writer has put together so far: the bytes, the entries, and the
/// content that each entry was given.
pub struct Body {
    pub stream: Seq<u8>,
    pub entries: Seq<EntryView>,
    pub contents: Seq<Seq<u8>>,
}

/// The settings of an encoder for a level, workers and long-range mode.
pub open spec fn wanted_settings(level: i32, workers: u32, long_range: bool) -> (
    i32,
    Option<u32>,
    bool,
    u32,
) {
    (
        level,
        if long_range {
            Some(LONG_WINDOW_LOG)
        } else {
            None
        },
        long_range,
        workers,
    )
}

/// The headers of an archive that was begun at `created_at`.
pub open spec fn head_for(created_at: i64, encryption: Option<Encryption>) -> (
    Header,
    Option<EncryptionHeaderView>,
) {
    (
        Header {
            version_major: VERSION_MAJOR,
            version_minor: VERSION_MINOR,
            flags: if encryption is Some {
                FLAG_ENCRYPTED
            } else {
                0
            },
            created_at,
        },
        match encryption {
            Some(enc) => Some(
                EncryptionHeaderView {
                    cipher_algo: CipherAlgo::XChaCha20Poly1305,
                    kdf_algo: KdfAlgo::Argon2id,
                    argon2: enc.argon2,
                    salt: enc.salt@,
                },
            ),
            None => None,
        },
    )
}

/// The bytes of the headers of an archive.
pub open spec fn head_bytes(head: (Header, Option<EncryptionHeaderView>)) -> Seq<u8> {
    match head.1 {
        None => crate::format::header_bytes(head.0),
        Some(eh) => crate::format::header_bytes(head.0) + crate::format::encryption_header_bytes(
            eh,
        ),
    }
}

/// The entry of a file with this content.
pub open spec fn file_view(
    file: FileView,
    frame_compressed_size: u64,
    frame_offset: u64,
) -> EntryView {
    EntryView {
        path: file.path,
        kind: EntryKind::File,
        mode: file.mode,
        mtime_sec: file.mtime_sec,
        mtime_nsec: file.mtime_nsec,
        uncompressed_size: file.seen.len() as u64,
        frame_compressed_size,
        frame_offset,
        block_offset: file.block_offset,
        content_xxh3: codec::xxh3_of(file.seen),
        link_target: None,
    }
}

/// The entries once the size of their frame is known to those that waited for
/// it.
pub open spec fn settled(entries: Seq<EntryView>, pending: Seq<usize>, size: u64) -> Seq<
    EntryView,
> {
    Seq::new(
        entries.len(),
        |i: int|
            if pending.contains(i as usize) {
                EntryView { frame_compressed_size: size, ..entries[i] }
            } else {
                entries[i]
            },
    )
}

/// What an entry says of what was added, apart from where and how it is stored.
pub open spec fn account(e: EntryView) -> EntryView {
    EntryView { frame_compressed_size: 0, frame_offset: 0, block_offset: 0, ..e }
}

/// What the entries say of what was added, apart from where and how it is
/// stored.
pub open spec fn accounts(entries: Seq<EntryView>) -> Seq<EntryView> {
    Seq::new(entries.len(), |i: int| account(entries[i]))
}

/// What was added under one entry: what the entry says of it, apart from where
/// and how it is stored, and the content, which is empty where it is no file.
pub struct Added {
    pub account: EntryView,
    pub content: Seq<u8>,
}

/// What entries say of things that were added.
pub open spec fn accounts_of(added: Seq<Added>) -> Seq<EntryView> {
    Seq::new(added.len(), |i: int| added[i].account)
}

/// The contents of things that were added.
pub open spec fn contents_of(added: Seq<Added>) -> Seq<Seq<u8>> {
    Seq::new(added.len(), |i: int| added[i].content)
}

/// What was added step by step, one behind the other.
pub open spec fn in_turn(added: Seq<Seq<Added>>) -> Seq<Added>
    decreases added.len(),
{
    if added.len() == 0 {
        Seq::empty()
    } else {
        in_turn(added.drop_last()) + added.last()
    }
}

/// Whether an entry is as the writer makes them: its path may stand in an
/// archive, and it has a target if and only if it is a link.
pub open spec fn proper(e: EntryView) -> bool {
    &&& path::path_fault(e.path) is None
    &&& e.link_target is Some <==> e.kind == EntryKind::Symlink
}

/// The entry of a directory.
pub open spec fn dir_view(
    path: Seq<char>,
    mode: u32,
    mtime_sec: i64,
    mtime_nsec: u32,
) -> EntryView {
    EntryView {
        path,
        kind: EntryKind::Dir,
        mode,
        mtime_sec,
        mtime_nsec,
        uncompressed_size: 0,
        frame_compressed_size: 0,
        frame_offset: 0,
        block_offset: 0,
        content_xxh3: 0,
        link_target: None,
    }
}

/// The entry of a link.
pub open spec fn link_view(
    path: Seq<char>,
    target: Seq<char>,
    mtime_sec: i64,
    mtime_nsec: u32,
) -> EntryView {
    EntryView {
        path,
        kind: EntryKind::Symlink,
        mode: 0,
        mtime_sec,
        mtime_nsec,
        uncompressed_size: 0,
        frame_compressed_size: 0,
        frame_offset: 0,
        block_offset: 0,
        content_xxh3: 0,
        link_target: Some(target),
    }
}

/// Whether `archive` is made of what was put together, the index stored as
/// `stored`, and the footer.
#[verifier::opaque]
pub open spec fn is_finish(
    key: Option<Seq<u8>>,
    last: Body,
    archive: Seq<u8>,
    stored: Seq<u8>,
) -> bool {
    let listing = index::index_write(last.entries);
    let footer = Footer {
        index_offset: last.stream.len() as u64,
        index_size: stored.len() as u64,
        index_xxh3: codec::xxh3_of(listing.bytes),
        flags: 0,
    };
    &&& listing.fault is None
    &&& is_stored(key, listing.bytes, stored)
    &&& archive == last.stream + stored + crate::format::footer_bytes(footer)
    &&& archive.len() <= u64::MAX
}

/// Whether `archive` is what was put together with an index and a footer behind
/// it.
pub open spec fn finishes(key: Option<Seq<u8>>, last: Body, archive: Seq<u8>) -> bool {
    exists|stored: Seq<u8>| #[trigger] is_finish(key, last, archive, stored)
}

/// Whether the index, as it may be stored, or the footer behind it outgrows the
/// offsets of the format.
pub open spec fn end_overflows(key: Option<Seq<u8>>, last: Body) -> bool {
    exists|stored: Seq<u8>| #[trigger]
        is_stored(key, index::index_write(last.entries).bytes, stored) && last.stream.len()
            + stored.len() + 32 > u64::MAX
}

/// What is put together once the shared frame, if one is open, is closed.
pub open spec fn ends_at(
    key: Option<Seq<u8>>,
    before: Body,
    block: Option<BlockView>,
    last: Body,
) -> bool {
    match block {
        None => last == before,
        Some(b) => closes(key, before, b, last),
    }
}

/// Whether two entries differ at most in their numbers.
pub open spec fn same_names(a: EntryView, b: EntryView) -> bool {
    a.path == b.path && a.kind == b.kind && a.link_target == b.link_target
}

/// A file with more bytes taken in.
pub open spec fn fed_file(file: FileView, chunk: Seq<u8>) -> FileView {
    FileView {
        seen: file.seen + chunk,
        own_frame: match file.own_frame {
            Some((input, settings)) => Some((input + chunk, settings)),
            None => None,
        },
        ..file
    }
}

/// A shared frame with more bytes taken in.
pub open spec fn fed_block(block: BlockView, chunk: Seq<u8>) -> BlockView {
    BlockView {
        raw_bytes: (block.raw_bytes + chunk.len()) as u64,
        input: block.input + chunk,
        ..block
    }
}

/// Whether the count of a file can take a chunk.
pub open spec fn chunk_fits(file: FileView, chunk: Seq<u8>) -> bool {
    file.seen.len() + chunk.len() <= u64::MAX
}

/// Whether a file that goes on with `more` bytes stays in the shared frame: one
/// that shares it with the bytes of others has to fit the target with them.
pub open spec fn stays(block: BlockView, file: FileView, target_bytes: u64, more: nat) -> bool {
    file.placed || block.raw_bytes + file.seen.len() + more <= target_bytes
}

/// A file that has moved, with more bytes taken in, to a shared frame of which
/// it is the first.
pub open spec fn moved_file(file: FileView, chunk: Seq<u8>) -> FileView {
    FileView { seen: file.seen + chunk, block_offset: 0, placed: true, ..file }
}

/// A shared frame that was opened behind `at` bytes and has taken `input` in.
pub open spec fn fresh_block(
    at: nat,
    settings: (i32, Option<u32>, bool, u32),
    input: Seq<u8>,
) -> BlockView {
    BlockView {
        frame_offset: at as u64,
        raw_bytes: input.len() as u64,
        input,
        settings,
        pending: Seq::empty(),
    }
}

/// A shared frame from which the bytes of the only file that had any are gone
/// again.
pub open spec fn renewed_block(
    block: BlockView,
    settings: (i32, Option<u32>, bool, u32),
) -> BlockView {
    BlockView { raw_bytes: 0, input: Seq::empty(), settings, ..block }
}

/// Whether a compressed frame, as it may be stored, outgrows the offsets of the
/// format behind `stream`.
pub open spec fn overflows(key: Option<Seq<u8>>, stream: Seq<u8>, payload: Seq<u8>) -> bool {
    exists|stored: Seq<u8>| #[trigger]
        is_stored(key, payload, stored) && stream.len() + stored.len() > u64::MAX
}

/// Whether what an encoder may make of `input` outgrows the offsets of the
/// format behind `stream`.
pub open spec fn frame_overflows(
    key: Option<Seq<u8>>,
    stream: Seq<u8>,
    settings: (i32, Option<u32>, bool, u32),
    input: Seq<u8>,
) -> bool {
    exists|payload: Seq<u8>| #[trigger]
        codec::zstd_frame(settings, input, payload) && overflows(key, stream, payload)
}

/// Whether compressing `input` and storing it behind `stream` may fail like
/// this: the compressor reported something, the encryption did, or the frame
/// outgrows the offsets.
pub open spec fn frame_fault(
    key: Option<Seq<u8>>,
    stream: Seq<u8>,
    settings: (i32, Option<u32>, bool, u32),
    input: Seq<u8>,
    e: ErrorView,
) -> bool {
    ||| e == error::source_fault()
    ||| e is Crypto && key is Some
    ||| e == error::too_large() && frame_overflows(key, stream, settings, input)
}

/// Whether taking a chunk in, in solid mode, leads from `before` to `after`. A
/// file that no longer fits the shared frame closes it and moves to a new one.
pub open spec fn feeds(
    key: Option<Seq<u8>>,
    settings: (i32, Option<u32>, bool, u32),
    before: Body,
    block: BlockView,
    file: FileView,
    target_bytes: u64,
    chunk: Seq<u8>,
    after: Body,
    after_block: Option<BlockView>,
    after_file: Option<FileView>,
) -> bool {
    if file.placed {
        &&& after == before
        &&& after_block == Some(fed_block(block, chunk))
        &&& after_file == Some(fed_file(file, chunk))
    } else if stays(block, file, target_bytes, chunk.len()) {
        &&& after == before
        &&& after_block == Some(block)
        &&& after_file == Some(fed_file(file, chunk))
    } else {
        &&& closes(key, before, block, after)
        &&& after_block == Some(fresh_block(after.stream.len(), settings, file.seen + chunk))
        &&& after_file == Some(moved_file(file, chunk))
    }
}

/// Whether taking a chunk in, in solid mode, may fail like this. Nothing can
/// fail while the bytes of a file are held back.
pub open spec fn feed_fails(
    key: Option<Seq<u8>>,
    before: Body,
    block: BlockView,
    file: FileView,
    target_bytes: u64,
    chunk: Seq<u8>,
    after: Body,
    e: ErrorView,
) -> bool {
    if !chunk_fits(file, chunk) {
        after == before && e == error::too_large()
    } else if file.placed {
        after == before && e == error::source_fault() && chunk.len() > 0
    } else {
        &&& !stays(block, file, target_bytes, chunk.len())
        &&& {
            ||| after == before && frame_fault(
                key,
                before.stream,
                block.settings,
                block.input,
                e,
            )
            ||| closes(key, before, block, after) && e == error::source_fault()
        }
    }
}

/// Whether ending a file, in solid mode, may lead from `before` to `after` with
/// this result. Bytes that were held back go into the shared frame first.
pub open spec fn ends_solid(
    key: Option<Seq<u8>>,
    before: Body,
    block: BlockView,
    file: FileView,
    target_bytes: u64,
    after: Body,
    after_block: Option<BlockView>,
    res: Result<()>,
) -> bool {
    let laid = if file.placed {
        block
    } else {
        fed_block(block, file.seen)
    };
    ||| ends_in_block(key, before, laid, file, target_bytes, after, after_block, res)
    ||| !file.placed && file.seen.len() > 0 && after == before && (res matches Err(e) && e@
        == error::source_fault())
}

/// Whether adding a file with this content, in solid mode, may lead from
/// `before` to `after` with this result. A file that would take a shared frame
/// past its target, with bytes of others in it, comes behind it in a new one.
pub open spec fn adds_solid(
    key: Option<Seq<u8>>,
    settings: (i32, Option<u32>, bool, u32),
    before: Body,
    block: BlockView,
    file: FileView,
    target_bytes: u64,
    content: Seq<u8>,
    after: Body,
    after_block: Option<BlockView>,
    res: Result<()>,
) -> bool {
    if stays(block, file, target_bytes, content.len()) {
        ||| ends_in_block(
            key,
            before,
            fed_block(block, content),
            fed_file(file, content),
            target_bytes,
            after,
            after_block,
            res,
        )
        ||| content.len() > 0 && after == before && (res matches Err(e) && e@
            == error::source_fault())
    } else {
        ||| after == before && (res matches Err(e) && frame_fault(
            key,
            before.stream,
            block.settings,
            block.input,
            e@,
        ))
        ||| exists|mid: Body| #[trigger]
            closes(key, before, block, mid) && ({
                ||| ends_in_block(
                    key,
                    mid,
                    fresh_block(mid.stream.len(), settings, content),
                    moved_file(file, content),
                    target_bytes,
                    after,
                    after_block,
                    res,
                )
                ||| after == mid && (res matches Err(e) && e@ == error::source_fault())
            })
    }
}

/// A shared frame with one more entry that waits for its size.
pub open spec fn joined_block(block: BlockView, i: usize) -> BlockView {
    BlockView { pending: block.pending.push(i), ..block }
}

/// What a file of a shared frame adds before the frame is closed.
pub open spec fn entered(before: Body, block: BlockView, file: FileView) -> Body {
    Body {
        stream: before.stream,
        entries: before.entries.push(file_view(file, 0, block.frame_offset)),
        contents: before.contents.push(file.seen),
    }
}

/// Whether adding a file in a frame of its own, compressed to `payload` and
/// stored as `stored`, leads from `before` to `after`.
pub open spec fn is_adding(
    key: Option<Seq<u8>>,
    before: Body,
    file: FileView,
    after: Body,
    payload: Seq<u8>,
    stored: Seq<u8>,
) -> bool {
    &&& file.own_frame matches Some((input, settings)) && {
        &&& codec::zstd_frame(settings, input, payload)
        &&& codec::zstd_decoded(payload) == Some(input)
    }
    &&& payload.len() > 0
    &&& is_stored(key, payload, stored)
    &&& after.stream == before.stream + stored
    &&& after.entries == before.entries.push(
        file_view(file, stored.len() as u64, before.stream.len() as u64),
    )
    &&& after.contents == before.contents.push(file.seen)
}

/// Whether ending a file that has a frame of its own may lead from `before` to
/// `after` with this result.
pub open spec fn ends_frame(
    key: Option<Seq<u8>>,
    before: Body,
    file: FileView,
    after: Body,
    res: Result<()>,
) -> bool {
    match res {
        Ok(_) => exists|payload: Seq<u8>, stored: Seq<u8>| #[trigger]
            is_adding(key, before, file, after, payload, stored),
        Err(e) => after == before && (file.own_frame matches Some((input, settings))
            && frame_fault(key, before.stream, settings, input, e@)),
    }
}

/// Whether ending a file that goes into a shared frame may lead from `before`
/// to `after` with this result. The frame stays open until it holds
/// `target_bytes`.
pub open spec fn ends_in_block(
    key: Option<Seq<u8>>,
    before: Body,
    block: BlockView,
    file: FileView,
    target_bytes: u64,
    after: Body,
    after_block: Option<BlockView>,
    res: Result<()>,
) -> bool {
    let now = entered(before, block, file);
    let joined = joined_block(block, before.entries.len() as usize);
    if block.raw_bytes < target_bytes {
        res is Ok && after == now && after_block == Some(joined)
    } else {
        &&& after_block is None
        &&& match res {
            Ok(_) => closes(key, now, joined, after),
            Err(e) => after == now && frame_fault(
                key,
                before.stream,
                block.settings,
                block.input,
                e@,
            ),
        }
    }
}

/// Whether `stored` is a form in which an archive with this key may hold a
/// compressed frame.
pub open spec fn is_stored(key: Option<Seq<u8>>, payload: Seq<u8>, stored: Seq<u8>) -> bool {
    &&& frame::sealed(key, payload, stored)
    &&& stored.len() == payload.len() + frame::overhead(key)
    &&& frame::unsealed(key, stored, "encrypted frame too small"@) == Ok::<Seq<u8>, ErrorView>(
        payload,
    )
    &&& frame::unsealed(key, stored, "encrypted index too small"@) == Ok::<Seq<u8>, ErrorView>(
        payload,
    )
}

/// The content behind a compressed frame, as far as it has one.
pub open spec fn unpacked(payload: Seq<u8>) -> Seq<u8> {
    match codec::zstd_decoded(payload) {
        Some(data) => data,
        None => Seq::empty(),
    }
}

/// Whether appending a frame, stored as `stored`, and telling its size to the
/// pending entries leads from `before` to `after`.
pub open spec fn is_settling(
    key: Option<Seq<u8>>,
    before: Body,
    pending: Seq<usize>,
    payload: Seq<u8>,
    stored: Seq<u8>,
    after: Body,
) -> bool {
    &&& is_stored(key, payload, stored)
    &&& after.stream == before.stream + stored
    &&& after.entries == settled(before.entries, pending, stored.len() as u64)
    &&& after.contents == before.contents
}

/// Whether appending a frame, stored as `stored`, for one more file leads from
/// `before` to `after`.
pub open spec fn is_appending(
    key: Option<Seq<u8>>,
    before: Body,
    payload: Seq<u8>,
    stored: Seq<u8>,
    after: Body,
) -> bool {
    &&& is_stored(key, payload, stored)
    &&& after.stream == before.stream + stored
    &&& after.contents == before.contents.push(unpacked(payload))
}

/// Whether closing a shared frame, compressed to `payload` and stored as
/// `stored`, leads from `before` to `after`.
pub open spec fn is_closing(
    key: Option<Seq<u8>>,
    before: Body,
    block: BlockView,
    after: Body,
    payload: Seq<u8>,
    stored: Seq<u8>,
) -> bool {
    &&& codec::zstd_frame(block.settings, block.input, payload)
    &&& codec::zstd_decoded(payload) == Some(block.input)
    &&& is_stored(key, payload, stored)
    &&& after.stream == before.stream + stored
    &&& after.entries == settled(before.entries, block.pending, stored.len() as u64)
    &&& after.contents == before.contents
}

/// Whether closing a shared frame may lead from `before` to `after`.
pub open spec fn closes(
    key: Option<Seq<u8>>,
    before: Body,
    block: BlockView,
    after: Body,
) -> bool {
    exists|payload: Seq<u8>, stored: Seq<u8>| #[trigger]
        is_closing(key, before, block, after, payload, stored)
}

} // verus!
