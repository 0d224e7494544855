//! Streaming writing of an archive.
//!
//! A header is written on construction and compressed frames as files are
//! added; [`Writer::finish`] appends the index and the footer. Without it the
//! archive is unreadable. Output gathers in memory until
//! [`Writer::take_output`] hands it out.

use crate::archive;
use crate::assembly;
use crate::assembly::{Added, BlockView, Body, FileView};
use crate::codec;
use crate::codec::{
    encoder_finish, encoder_new, encoder_set, encoder_write, CountingWriter, EncoderParameter,
    FrameEncoder, HashingReader, DEFAULT_LEVEL, LONG_WINDOW_LOG,
};
use crate::crypto::{CipherAlgo, Encryption, KdfAlgo};
use crate::error;
use crate::error::{Error, ErrorView, IoFault, Result};
use crate::extract;
use crate::format::{
    put_bytes, EncryptionHeader, EncryptionHeaderView, EntryKind, Footer, Header,
    ENCRYPTION_HEADER_SIZE, FLAG_ENCRYPTED, HEADER_SIZE,
};
use crate::frame;
use crate::frame::seal;
use crate::index;
use crate::index::{write_index, Entry, EntryView};
use crate::path;
use crate::path::validate_archive_path;
use crate::reader;
use vstd::prelude::*;

verus! {

/// How files are packed into compressed frames.
#[derive(Debug, Clone, Copy, PartialEq, Eq, Structural)]
pub enum WriterMode {
    /// Each file becomes its own frame.
    PerFile,
    /// Files are concatenated into shared frames of up to `target_bytes` raw
    /// each; only a file that is larger than that by itself exceeds it. Better
    /// ratio on archives with similar files; extracting one file decodes its
    /// full block.
    Solid { target_bytes: u64 },
}

impl Default for WriterMode {
    fn default() -> (mode: Self)
        ensures
            mode == WriterMode::PerFile,
    {
        WriterMode::PerFile
    }
}

/// A shared frame that more files can still go into.
struct OpenBlock {
    frame_offset: u64,
    raw_bytes: u64,
    encoder: FrameEncoder,
    pending: Vec<usize>,
}

/// A file whose bytes are still coming in. Outside solid mode it has an encoder
/// of its own. In solid mode its bytes are held back while it is open whether
/// the shared frame can take all of it.
struct OpenFile {
    path: String,
    mode: u32,
    mtime_sec: i64,
    mtime_nsec: u32,
    block_offset: u64,
    placed: bool,
    held: Vec<u8>,
    hashing: HashingReader<()>,
    encoder: Option<FrameEncoder>,
}

/// Builds an archive.
pub struct Writer {
    out: CountingWriter<Vec<u8>>,
    entries: Vec<Entry>,
    level: i32,
    workers: u32,
    long_range: bool,
    mode: WriterMode,
    open_block: Option<OpenBlock>,
    open_file: Option<OpenFile>,
    encryption: Option<Encryption>,
    drained: Ghost<Seq<u8>>,
    contents: Ghost<Seq<Seq<u8>>>,
    head: Ghost<(Header, Option<EncryptionHeaderView>)>,
}

impl OpenBlock {
    closed spec fn model(self) -> BlockView {
        BlockView {
            frame_offset: self.frame_offset,
            raw_bytes: self.raw_bytes,
            input: codec::encoder_input(self.encoder),
            settings: codec::encoder_settings(self.encoder),
            pending: self.pending@,
        }
    }
}

impl OpenFile {
    closed spec fn model(self) -> FileView {
        FileView {
            path: self.path@,
            mode: self.mode,
            mtime_sec: self.mtime_sec,
            mtime_nsec: self.mtime_nsec,
            block_offset: self.block_offset,
            placed: self.placed,
            seen: self.hashing.seen(),
            own_frame: match self.encoder {
                Some(encoder) => Some(
                    (codec::encoder_input(encoder), codec::encoder_settings(encoder)),
                ),
                None => None,
            },
        }
    }
}

impl Writer {
    /// Everything that was written so far.
    pub closed spec fn stream(self) -> Seq<u8> {
        self.drained@ + self.out.inner@
    }

    /// What [`Writer::take_output`] has handed out of it.
    pub closed spec fn handed_out(self) -> Seq<u8> {
        self.drained@
    }

    /// The entries so far.
    pub closed spec fn listed(self) -> Seq<EntryView> {
        index::views(self.entries@)
    }

    /// The content that each entry was given; nothing for one that is no file.
    pub closed spec fn contents(self) -> Seq<Seq<u8>> {
        self.contents@
    }

    /// The headers of the archive.
    pub closed spec fn head(self) -> (Header, Option<EncryptionHeaderView>) {
        self.head@
    }

    /// How files are packed.
    pub closed spec fn packing(self) -> WriterMode {
        self.mode
    }

    /// The settings of the encoders.
    pub closed spec fn settings(self) -> (i32, Option<u32>, bool, u32) {
        assembly::wanted_settings(self.level, self.workers, self.long_range)
    }

    /// The encryption, if there is one.
    pub closed spec fn lock(self) -> Option<Encryption> {
        self.encryption
    }

    /// The key of the archive, if it has one.
    pub open spec fn key(self) -> Option<Seq<u8>> {
        frame::key_of(self.lock())
    }

    /// The shared frame that is open.
    pub closed spec fn block(self) -> Option<BlockView> {
        match self.open_block {
            Some(block) => Some(block.model()),
            None => None,
        }
    }

    /// The file that is being added.
    pub closed spec fn file(self) -> Option<FileView> {
        match self.open_file {
            Some(file) => Some(file.model()),
            None => None,
        }
    }

    /// What holds of every writer.
    pub closed spec fn wf(self) -> bool {
        &&& self.out.bytes_written == self.stream().len()
        &&& self.listed().len() == self.contents().len()
        &&& reader::head_of(self.stream()) == Ok::<
            (Header, Option<EncryptionHeaderView>),
            ErrorView,
        >(self.head())
        &&& forall|i: int| #![trigger self.listed()[i]]
            0 <= i < self.listed().len() ==> assembly::proper(self.listed()[i])
        &&& self.open_block matches Some(block) ==> {
            &&& self.mode matches WriterMode::Solid { target_bytes } && (block.raw_bytes
                <= target_bytes || (self.open_file matches Some(file) && file.placed))
            &&& forall|a: int| #![trigger block.pending@[a]]
                0 <= a < block.pending@.len() ==> block.pending@[a] < self.entries@.len()
        }
        &&& self.open_file matches Some(file) ==> {
            &&& file.hashing.wf()
            &&& path::path_fault(file.path@) is None
            &&& file.encoder is Some <==> self.mode == WriterMode::PerFile
            &&& match self.mode {
                WriterMode::PerFile => file.block_offset == 0 && file.placed,
                WriterMode::Solid { target_bytes } => self.open_block matches Some(block)
                    && if file.placed {
                    &&& file.block_offset == 0
                    &&& block.raw_bytes == file.hashing.seen().len()
                } else {
                    &&& file.held@ == file.hashing.seen()
                    &&& file.block_offset == block.raw_bytes
                    &&& block.raw_bytes + file.hashing.seen().len() <= target_bytes
                },
            }
            &&& file.encoder matches Some(encoder) ==> {
                &&& codec::encoder_input(encoder) == file.hashing.seen()
                &&& codec::encoder_settings(encoder) == self.settings()
            }
        }
    }

    /// Whether the entry `i` waits for its frame, which will hold its content.
    pub open spec fn waits(self, i: int) -> bool {
        &&& self.block() matches Some(block) && {
            &&& block.pending.contains(i as usize)
            &&& self.listed()[i].frame_offset == block.frame_offset
            &&& self.listed()[i].frame_compressed_size == 0
            &&& extract::content_of(self.listed()[i], block.input) == Ok::<Seq<u8>, ErrorView>(
                self.contents()[i],
            )
        }
    }

    /// Whether all that was added can be read back once the archive is
    /// finished, and lies there as the packing asks. Only a failure within a
    /// shared frame, or in closing one, ends this.
    pub open spec fn sound(self) -> bool {
        self.body_sound() && self.file_sound()
    }

    /// How many bytes the headers of the archive take.
    pub open spec fn head_size(self) -> nat {
        assembly::head_bytes(self.head()).len()
    }

    /// Whether what was added lies in the archive as the packing asks.
    pub open spec fn packed_right(self) -> bool {
        match self.packing() {
            WriterMode::PerFile => archive::tiled(self.listed(), self.head_size())
                && archive::frames_end(self.listed(), self.head_size()) == self.stream().len(),
            WriterMode::Solid { target_bytes } => archive::within_target(
                self.listed(),
                target_bytes,
            ),
        }
    }

    /// Whether the file that is being added can be read back once its entry is
    /// there.
    pub open spec fn file_sound(self) -> bool {
        self.file() matches Some(file) ==> match file.own_frame {
            Some((input, settings)) => input == file.seen && settings == self.settings(),
            None => self.block() matches Some(block) && {
                &&& file.placed ==> file.block_offset == 0 && block.input == file.seen
                &&& !file.placed ==> file.block_offset == block.raw_bytes
                &&& !file.placed ==> (self.packing() matches WriterMode::Solid { target_bytes }
                    && block.raw_bytes + file.seen.len() <= target_bytes)
                &&& forall|a: int| #![trigger block.pending[a]]
                    0 <= a < block.pending.len() ==> archive::end_of(
                        self.listed()[block.pending[a] as int],
                    ) <= file.block_offset
            },
        }
    }

    /// Whether all that has an entry can be read back once the archive is
    /// finished.
    pub open spec fn body_sound(self) -> bool {
        &&& forall|i: int|
            #![trigger self.listed()[i]]
            0 <= i < self.listed().len() && self.listed()[i].kind == EntryKind::File
                ==> archive::holds(
                self.stream(),
                self.key(),
                self.listed()[i],
                self.contents()[i],
            ) || self.waits(i)
        &&& archive::frames_agree(self.listed())
        &&& archive::in_order(self.listed())
        &&& self.packed_right()
        &&& self.block() matches Some(block) ==> {
            &&& block.frame_offset == self.stream().len()
            &&& block.raw_bytes == block.input.len()
            &&& block.settings == self.settings()
            &&& forall|a: int| #![trigger block.pending[a]]
                0 <= a < block.pending.len() ==> {
                    &&& block.pending[a] < self.listed().len()
                    &&& self.listed()[block.pending[a] as int].kind == EntryKind::File
                    &&& self.waits(block.pending[a] as int)
                }
        }
    }

    /// Whether two states of a writer differ in no setting, and nothing was
    /// handed out in between.
    pub open spec fn same_setup(self, other: Writer) -> bool {
        &&& self.handed_out() == other.handed_out()
        &&& self.head() == other.head()
        &&& self.packing() == other.packing()
        &&& self.settings() == other.settings()
        &&& self.lock() == other.lock()
    }

    /// Whether `after` has been given `added` on top of what this writer was
    /// given, and nothing else, and is as sound as it.
    pub open spec fn grows(self, added: Seq<Added>, after: Writer) -> bool {
        &&& after.head() == self.head()
        &&& after.packing() == self.packing()
        &&& after.settings() == self.settings()
        &&& after.lock() == self.lock()
        &&& assembly::accounts(after.listed()) == assembly::accounts(self.listed())
            + assembly::accounts_of(added)
        &&& after.contents() == self.contents() + assembly::contents_of(added)
        &&& self.sound() ==> after.sound()
    }

    /// Whether beginning a file, whose path may stand in an archive, leads to
    /// `after`.
    pub open spec fn began(
        self,
        path: Seq<char>,
        mode: u32,
        mtime_sec: i64,
        mtime_nsec: u32,
        after: Writer,
    ) -> bool {
        &&& after.same_setup(self)
        &&& after.body() == self.body()
        &&& self.sound() ==> after.sound()
        &&& after.file() == Some(self.begun(path, mode, mtime_sec, mtime_nsec))
        &&& after.block() == if self.packing() is Solid {
            Some(self.current_block())
        } else {
            self.block()
        }
    }

    /// Whether taking in the next bytes of the file that is being added leads to
    /// `after`.
    pub open spec fn took(self, chunk: Seq<u8>, after: Writer) -> bool {
        &&& after.same_setup(self)
        &&& self.sound() ==> after.sound()
        &&& match self.packing() {
            WriterMode::PerFile => {
                &&& after.body() == self.body()
                &&& after.block() == self.block()
                &&& after.file() == Some(assembly::fed_file(self.file()->Some_0, chunk))
            },
            WriterMode::Solid { target_bytes } => assembly::feeds(
                self.key(),
                self.settings(),
                self.body(),
                self.block()->Some_0,
                self.file()->Some_0,
                target_bytes,
                chunk,
                after.body(),
                after.block(),
                after.file(),
            ),
        }
    }

    /// Whether giving up the file that is being added leads to `after`.
    pub open spec fn gave_up(self, after: Writer) -> bool {
        &&& after.same_setup(self)
        &&& after.body() == self.body()
        &&& after.block() == self.block_without_file()
        &&& after.file() is None
        &&& self.sound() ==> after.sound()
    }

    /// What was put together so far.
    pub open spec fn body(self) -> Body {
        Body { stream: self.stream(), entries: self.listed(), contents: self.contents() }
    }

    /// Begins an archive. Without a level the default one is taken.
    pub fn new(
        created_at: i64,
        level: Option<i32>,
        workers: u32,
        long_range: bool,
        mode: WriterMode,
        encryption: Option<Encryption>,
    ) -> (res: Result<Self>)
        ensures
            res matches Ok(w) && {
                &&& w.wf()
                &&& w.sound()
                &&& w.head() == assembly::head_for(created_at, encryption)
                &&& w.head_size() == if encryption is Some {
                    HEADER_SIZE + ENCRYPTION_HEADER_SIZE
                } else {
                    HEADER_SIZE as int
                }
                &&& w.stream() == assembly::head_bytes(w.head())
                &&& w.handed_out() == Seq::<u8>::empty()
                &&& w.listed() == Seq::<EntryView>::empty()
                &&& w.contents() == Seq::<Seq<u8>>::empty()
                &&& w.packing() == mode
                &&& w.settings() == assembly::wanted_settings(
                    match level {
                        Some(level) => level,
                        None => DEFAULT_LEVEL,
                    },
                    workers,
                    long_range,
                )
                &&& w.lock() == encryption
                &&& w.block() is None
                &&& w.file() is None
            },
    {
        let ghost head = assembly::head_for(created_at, encryption);
        let mut header = Header::new(created_at);
        if encryption.is_some() {
            let flags: u32 = header.flags;
            assert(0u32 | 1u32 == 1u32) by (bit_vector);
            header.flags = flags | FLAG_ENCRYPTED;
        }
        assert(header == head.0);
        let mut start: Vec<u8> = Vec::new();
        match header.write_to(&mut start) {
            Ok(_) => {},
            Err(e) => {
                return Err(e);
            },
        }
        match &encryption {
            Some(enc) => {
                let eh = EncryptionHeader {
                    cipher_algo: CipherAlgo::XChaCha20Poly1305,
                    kdf_algo: KdfAlgo::Argon2id,
                    argon2: enc.argon2,
                    salt: enc.salt,
                };
                assert(eh@ == head.1->Some_0);
                match eh.write_to(&mut start) {
                    Ok(_) => {},
                    Err(e) => {
                        return Err(e);
                    },
                }
            },
            None => {},
        }
        proof {
            assert(start@ =~= assembly::head_bytes(head));
            lemma_head_reads_back(created_at, encryption);
        }
        let mut out: CountingWriter<Vec<u8>> = CountingWriter::new(Vec::new());
        match out.write(start.as_slice()) {
            Ok(_) => {},
            Err(e) => {
                return Err(e);
            },
        }
        let level: i32 = match level {
            Some(level) => level,
            None => DEFAULT_LEVEL,
        };
        let w = Writer {
            out,
            entries: Vec::new(),
            level,
            workers,
            long_range,
            mode,
            open_block: None,
            open_file: None,
            encryption,
            drained: Ghost(Seq::empty()),
            contents: Ghost(Seq::empty()),
            head: Ghost(head),
        };
        proof {
            assert(w.stream() =~= assembly::head_bytes(head));
            assert(w.listed() =~= Seq::empty());
        }
        Ok(w)
    }
}

/// Sets the size of the frame of every pending entry.
pub fn settle(entries: &mut Vec<Entry>, pending: &Vec<usize>, size: u64)
    requires
        forall|a: int| #![trigger pending@[a]]
            0 <= a < pending@.len() ==> pending@[a] < old(entries)@.len(),
    ensures
        index::views(final(entries)@) == assembly::settled(
            index::views(old(entries)@),
            pending@,
            size,
        ),
{
    let ghost before = index::views(entries@);
    let mut a: usize = 0;
    assert(entries.len() == entries@.len());
    assert(index::views(entries@) =~= assembly::settled(before, pending@.take(0), size));
    while a < pending.len()
        invariant
            a <= pending@.len(),
            entries@.len() == before.len() <= usize::MAX,
            forall|b: int| #![trigger pending@[b]]
                0 <= b < pending@.len() ==> pending@[b] < before.len(),
            index::views(entries@) == assembly::settled(before, pending@.take(a as int), size),
        decreases pending@.len() - a,
    {
        let i: usize = pending[a];
        let ghost was = index::views(entries@);
        let ghost part = pending@.take(a as int);
        let ghost next = pending@.take(a + 1);
        entries[i].frame_compressed_size = size;
        proof {
            assert(next =~= part.push(i));
            let now = index::views(entries@);
            assert forall|j: int| 0 <= j < before.len() implies #[trigger] now[j] == assembly::settled(
                before,
                next,
                size,
            )[j] by {
                assert(was[j] == assembly::settled(before, part, size)[j]);
                if j == i {
                    assert(next[a as int] == i);
                    assert(next.contains(j as usize));
                } else {
                    if part.contains(j as usize) {
                        let b = choose|b: int| 0 <= b < part.len() && part[b] == j as usize;
                        assert(next[b] == j as usize);
                    }
                    if next.contains(j as usize) {
                        let b = choose|b: int| 0 <= b < next.len() && next[b] == j as usize;
                        assert(part[b] == j as usize);
                    }
                }
            }
            assert(now =~= assembly::settled(before, next, size));
        }
        a = a + 1;
    }
    assert(pending@.take(a as int) =~= pending@);
}

/// Sets an encoder up for long-range mode and for a number of workers.
fn configure_encoder(encoder: &mut FrameEncoder, workers: u32, long_range: bool) -> (res: Result<
    (),
>)
    requires
        codec::encoder_input(*old(encoder)).len() == 0,
        codec::encoder_settings(*old(encoder)).1 is None,
        !codec::encoder_settings(*old(encoder)).2,
        codec::encoder_settings(*old(encoder)).3 == 0,
    ensures
        res is Ok,
        codec::encoder_settings(*final(encoder)) == assembly::wanted_settings(
            codec::encoder_settings(*old(encoder)).0,
            workers,
            long_range,
        ),
        codec::encoder_input(*final(encoder)) == codec::encoder_input(*old(encoder)),
{
    if long_range {
        match encoder_set(encoder, EncoderParameter::WindowLog(LONG_WINDOW_LOG)) {
            Ok(_) => {},
            Err(e) => {
                return Err(Error::Io(IoFault::Source(e)));
            },
        }
        match encoder_set(encoder, EncoderParameter::LongDistanceMatching(true)) {
            Ok(_) => {},
            Err(e) => {
                return Err(Error::Io(IoFault::Source(e)));
            },
        }
    }
    if workers > 0 {
        match encoder_set(encoder, EncoderParameter::Workers(workers)) {
            Ok(_) => {},
            Err(e) => {
                return Err(Error::Io(IoFault::Source(e)));
            },
        }
    }
    Ok(())
}

/// A fresh encoder with the given settings.
fn new_encoder(level: i32, workers: u32, long_range: bool) -> (res: Result<FrameEncoder>)
    ensures
        res matches Ok(encoder) && {
            &&& codec::encoder_settings(encoder) == assembly::wanted_settings(
                level,
                workers,
                long_range,
            )
            &&& codec::encoder_input(encoder) == Seq::<u8>::empty()
        },
{
    let mut encoder = match encoder_new(level) {
        Ok(encoder) => encoder,
        Err(e) => {
            return Err(Error::Io(IoFault::Source(e)));
        },
    };
    match configure_encoder(&mut encoder, workers, long_range) {
        Ok(_) => Ok(encoder),
        Err(e) => Err(e),
    }
}

impl Writer {
    /// Hands out what was written since the last time.
    pub fn take_output(&mut self) -> (chunk: Vec<u8>)
        requires
            old(self).wf(),
        ensures
            final(self).wf(),
            old(self).sound() ==> final(self).sound(),
            old(self).stream() == old(self).handed_out() + chunk@,
            final(self).handed_out() == old(self).stream(),
            final(self).body() == old(self).body(),
            old(self).grows(Seq::empty(), *final(self)),
            final(self).head() == old(self).head(),
            final(self).packing() == old(self).packing(),
            final(self).settings() == old(self).settings(),
            final(self).lock() == old(self).lock(),
            final(self).block() == old(self).block(),
            final(self).file() == old(self).file(),
    {
        let ghost all = self.stream();
        let mut chunk: Vec<u8> = Vec::new();
        core::mem::swap(&mut chunk, &mut self.out.inner);
        self.drained = Ghost(all);
        proof {
            assert(self.stream() =~= all);
            lemma_grows_by_nothing(*old(self));
        }
        chunk
    }

    /// Appends bytes as they are, and returns how many there are.
    pub fn write_stored(&mut self, stored: &[u8]) -> (res: Result<u64>)
        requires
            old(self).wf(),
        ensures
            final(self).wf(),
            final(self).same_setup(*old(self)),
            final(self).listed() == old(self).listed(),
            final(self).contents() == old(self).contents(),
            final(self).block() == old(self).block(),
            final(self).file() == old(self).file(),
            if old(self).stream().len() + stored@.len() <= u64::MAX {
                &&& (res matches Ok(n) && n == stored@.len())
                &&& final(self).stream() == old(self).stream() + stored@
            } else {
                &&& (res matches Err(e) && e@ == error::too_large())
                &&& final(self).stream() == old(self).stream()
            },
    {
        match self.out.write(stored) {
            Ok(n) => {
                proof {
                    lemma_head_stable(old(self).stream(), stored@);
                    assert(self.stream() =~= old(self).stream() + stored@);
                }
                Ok(n as u64)
            },
            Err(e) => Err(e),
        }
    }

    /// Appends a frame, encrypted where the archive is, and returns how many
    /// bytes it takes.
    fn write_frame(&mut self, payload: Vec<u8>) -> (res: Result<u64>)
        requires
            old(self).wf(),
        ensures
            final(self).wf(),
            final(self).same_setup(*old(self)),
            final(self).listed() == old(self).listed(),
            final(self).contents() == old(self).contents(),
            final(self).block() == old(self).block(),
            final(self).file() == old(self).file(),
            match res {
                Ok(n) => exists|stored: Seq<u8>| #[trigger]
                    assembly::is_stored(old(self).key(), payload@, stored) && n == stored.len()
                        && final(self).stream() == old(self).stream() + stored,
                Err(e) => {
                    &&& final(self).stream() == old(self).stream()
                    &&& (e@ is Crypto && old(self).key() is Some) || (e@ == error::too_large()
                        && assembly::overflows(old(self).key(), old(self).stream(), payload@))
                },
            },
            old(self).key() is None ==> (res is Ok <==> old(self).stream().len() + payload@.len()
                <= u64::MAX),
    {
        match seal(&self.encryption, payload) {
            Ok(stored) => {
                assert(assembly::is_stored(old(self).key(), payload@, stored@));
                self.write_stored(stored.as_slice())
            },
            Err(e) => Err(e),
        }
    }

    /// Opens a shared frame unless one is open.
    fn ensure_open_block(&mut self) -> (res: Result<()>)
        requires
            old(self).wf(),
            old(self).packing() is Solid,
            old(self).file() is None,
        ensures
            final(self).wf(),
            final(self).same_setup(*old(self)),
            final(self).body() == old(self).body(),
            final(self).file() is None,
            old(self).sound() ==> final(self).sound(),
            res is Ok,
            final(self).block() == Some(old(self).current_block()),
    {
        if self.open_block.is_none() {
            let encoder = match new_encoder(self.level, self.workers, self.long_range) {
                Ok(encoder) => encoder,
                Err(e) => {
                    return Err(e);
                },
            };
            let frame_offset: u64 = self.out.bytes_written;
            self.open_block = Some(
                OpenBlock { frame_offset, raw_bytes: 0, encoder, pending: Vec::new() },
            );
            proof {
                assert(self.block()->Some_0.pending =~= Seq::empty());
                if old(self).sound() {
                    assert forall|i: int|
                        #![trigger self.listed()[i]]
                        0 <= i < self.listed().len() && self.listed()[i].kind
                            == EntryKind::File implies archive::holds(
                        self.stream(),
                        self.key(),
                        self.listed()[i],
                        self.contents()[i],
                    ) || self.waits(i) by {
                        assert(old(self).listed()[i].kind == EntryKind::File);
                        assert(!old(self).waits(i));
                    }
                }
            }
        }
        Ok(())
    }

    /// The shared frame once the file that is being added is given up.
    pub open spec fn block_without_file(self) -> Option<BlockView> {
        match (self.block(), self.file()) {
            (Some(block), Some(file)) => if file.placed {
                Some(assembly::renewed_block(block, self.settings()))
            } else {
                Some(block)
            },
            _ => self.block(),
        }
    }

    /// The shared frame that the next file goes into, or might go into.
    pub open spec fn current_block(self) -> BlockView {
        match self.block_without_file() {
            Some(block) => block,
            None => BlockView {
                frame_offset: self.stream().len() as u64,
                raw_bytes: 0,
                input: Seq::empty(),
                settings: self.settings(),
                pending: Seq::empty(),
            },
        }
    }

    /// Compresses and appends the shared frame, if one is open, and tells its
    /// size to the entries that waited for it.
    fn close_open_block(&mut self) -> (res: Result<()>)
        requires
            old(self).wf(),
            old(self).file() is None,
        ensures
            final(self).wf(),
            final(self).same_setup(*old(self)),
            final(self).block() is None,
            final(self).file() is None,
            res is Ok && old(self).sound() ==> final(self).sound(),
            match (old(self).block(), res) {
                (None, _) => res is Ok && final(self).body() == old(self).body(),
                (Some(block), Ok(_)) => assembly::closes(
                    old(self).key(),
                    old(self).body(),
                    block,
                    final(self).body(),
                ),
                (Some(block), Err(e)) => {
                    &&& final(self).body() == old(self).body()
                    &&& assembly::frame_fault(
                        old(self).key(),
                        old(self).stream(),
                        block.settings,
                        block.input,
                        e@,
                    )
                },
            },
    {
        match self.open_block.take() {
            Some(block) => {
                assert(self.holding(block) == *old(self));
                self.close_block(block)
            },
            None => Ok(()),
        }
    }

    /// The writer with this shared frame open.
    spec fn holding(self, block: OpenBlock) -> Writer {
        Writer { open_block: Some(block), ..self }
    }

    /// Compresses and appends a shared frame, and tells its size to the entries
    /// that waited for it.
    fn close_block(&mut self, block: OpenBlock) -> (res: Result<()>)
        requires
            old(self).wf(),
            old(self).file() is None,
            old(self).block() is None,
            old(self).packing() is Solid,
            forall|a: int| #![trigger block.pending@[a]]
                0 <= a < block.pending@.len() ==> block.pending@[a] < old(self).listed().len(),
        ensures
            final(self).wf(),
            final(self).same_setup(*old(self)),
            final(self).block() is None,
            final(self).file() is None,
            res is Ok && old(self).holding(block).sound() ==> final(self).sound(),
            match res {
                Ok(_) => assembly::closes(
                    old(self).key(),
                    old(self).body(),
                    block.model(),
                    final(self).body(),
                ),
                Err(e) => {
                    &&& final(self).body() == old(self).body()
                    &&& assembly::frame_fault(
                        old(self).key(),
                        old(self).stream(),
                        block.model().settings,
                        block.model().input,
                        e@,
                    )
                },
            },
    {
        let ghost view = block.model();
        let packed = encoder_finish(block.encoder);
        let res = self.settle_packed(&block.pending, packed);
        proof {
            if res is Ok {
                let payload = packed->Ok_0@;
                let stored = choose|stored: Seq<u8>| #[trigger]
                    assembly::is_settling(
                        old(self).key(),
                        old(self).body(),
                        view.pending,
                        payload,
                        stored,
                        self.body(),
                    );
                assert(assembly::is_closing(
                    old(self).key(),
                    old(self).body(),
                    view,
                    self.body(),
                    payload,
                    stored,
                ));
                let full = old(self).holding(block);
                if full.sound() {
                    let count = self.entries.len();
                    lemma_sound_closed(full, *self, stored, payload);
                }
            }
        }
        res
    }

    /// Appends a frame that the compressor has made, or has failed to make,
    /// and tells its size to the pending entries.
    pub fn settle_packed(
        &mut self,
        pending: &Vec<usize>,
        packed: core::result::Result<Vec<u8>, std::io::Error>,
    ) -> (res: Result<()>)
        requires
            old(self).wf(),
            forall|a: int| #![trigger pending@[a]]
                0 <= a < pending@.len() ==> pending@[a] < old(self).listed().len(),
        ensures
            final(self).wf(),
            final(self).same_setup(*old(self)),
            final(self).block() == old(self).block(),
            final(self).file() == old(self).file(),
            match (packed, res) {
                (Err(source), _) => {
                    &&& res == Err::<(), Error>(Error::Io(IoFault::Source(source)))
                    &&& final(self).body() == old(self).body()
                },
                (Ok(payload), Ok(_)) => exists|stored: Seq<u8>| #[trigger]
                    assembly::is_settling(
                        old(self).key(),
                        old(self).body(),
                        pending@,
                        payload@,
                        stored,
                        final(self).body(),
                    ),
                (Ok(payload), Err(e)) => {
                    &&& final(self).body() == old(self).body()
                    &&& (e@ is Crypto && old(self).key() is Some) || (e@ == error::too_large()
                        && assembly::overflows(old(self).key(), old(self).stream(), payload@))
                },
            },
            old(self).key() is None ==> (packed matches Ok(payload) ==> (res is Ok
                <==> old(self).stream().len() + payload@.len() <= u64::MAX)),
    {
        let payload = match packed {
            Ok(payload) => payload,
            Err(e) => {
                return Err(Error::Io(IoFault::Source(e)));
            },
        };
        let ghost plain = payload@;
        let size: u64 = match self.write_frame(payload) {
            Ok(size) => size,
            Err(e) => {
                return Err(e);
            },
        };
        let ghost stored = choose|stored: Seq<u8>| #[trigger]
            assembly::is_stored(old(self).key(), plain, stored) && size == stored.len()
                && self.stream() == old(self).stream() + stored;
        let ghost mid = self.listed();
        settle(&mut self.entries, pending, size);
        proof {
            assert(self.listed() == assembly::settled(mid, pending@, size));
            assert forall|i: int| #![trigger self.listed()[i]]
                0 <= i < self.listed().len() implies assembly::proper(self.listed()[i]) by {
                assert(assembly::proper(mid[i]));
            }
            assert(assembly::is_settling(
                old(self).key(),
                old(self).body(),
                pending@,
                plain,
                stored,
                self.body(),
            ));
        }
        Ok(())
    }

    /// Adds a file of which the compressor has made, or has failed to make, a
    /// frame: `uncompressed_size` and `content_xxh3` are those of its content.
    pub fn add_packed(
        &mut self,
        path: String,
        mode: u32,
        mtime_sec: i64,
        mtime_nsec: u32,
        uncompressed_size: u64,
        content_xxh3: u64,
        packed: core::result::Result<Vec<u8>, std::io::Error>,
    ) -> (res: Result<()>)
        requires
            old(self).wf(),
            path::path_fault(path@) is None,
        ensures
            final(self).wf(),
            final(self).same_setup(*old(self)),
            final(self).block() == old(self).block(),
            final(self).file() == old(self).file(),
            match (packed, res) {
                (Err(source), _) => {
                    &&& res == Err::<(), Error>(Error::Io(IoFault::Source(source)))
                    &&& final(self).body() == old(self).body()
                },
                (Ok(payload), Ok(_)) => exists|stored: Seq<u8>| #[trigger]
                    assembly::is_appending(
                        old(self).key(),
                        old(self).body(),
                        payload@,
                        stored,
                        final(self).body(),
                    ) && final(self).listed() == old(self).listed().push(
                        EntryView {
                            path: path@,
                            kind: EntryKind::File,
                            mode,
                            mtime_sec,
                            mtime_nsec,
                            uncompressed_size,
                            frame_compressed_size: stored.len() as u64,
                            frame_offset: old(self).stream().len() as u64,
                            block_offset: 0,
                            content_xxh3,
                            link_target: None,
                        },
                    ),
                (Ok(payload), Err(e)) => {
                    &&& final(self).body() == old(self).body()
                    &&& (e@ is Crypto && old(self).key() is Some) || (e@ == error::too_large()
                        && assembly::overflows(old(self).key(), old(self).stream(), payload@))
                },
            },
            old(self).key() is None ==> (packed matches Ok(payload) ==> (res is Ok
                <==> old(self).stream().len() + payload@.len() <= u64::MAX)),
    {
        let payload = match packed {
            Ok(payload) => payload,
            Err(e) => {
                return Err(Error::Io(IoFault::Source(e)));
            },
        };
        let ghost plain = payload@;
        let frame_offset: u64 = self.out.bytes_written;
        let size: u64 = match self.write_frame(payload) {
            Ok(size) => size,
            Err(e) => {
                return Err(e);
            },
        };
        let ghost stored = choose|stored: Seq<u8>| #[trigger]
            assembly::is_stored(old(self).key(), plain, stored) && size == stored.len()
                && self.stream() == old(self).stream() + stored;
        let entry = file_entry(
            path,
            mode,
            mtime_sec,
            mtime_nsec,
            uncompressed_size,
            size,
            frame_offset,
            0,
            content_xxh3,
        );
        self.push_entry(entry, Ghost(assembly::unpacked(plain)));
        proof {
            assert(assembly::is_appending(
                old(self).key(),
                old(self).body(),
                plain,
                stored,
                self.body(),
            ));
        }
        Ok(())
    }
}

/// Takes bytes into a shared frame.
fn feed(block: &mut OpenBlock, data: &[u8]) -> (res: Result<()>)
    requires
        old(block).raw_bytes + data@.len() <= u64::MAX,
    ensures
        final(block).pending == old(block).pending,
        final(block).frame_offset == old(block).frame_offset,
        match res {
            Ok(_) => final(block).model() == assembly::fed_block(old(block).model(), data@),
            Err(e) => {
                &&& e@ == error::source_fault()
                &&& data@.len() > 0
                &&& final(block).raw_bytes == old(block).raw_bytes
            },
        },
{
    if data.len() > 0 {
        match encoder_write(&mut block.encoder, data) {
            Ok(_) => {},
            Err(e) => {
                return Err(Error::Io(IoFault::Source(e)));
            },
        }
        block.raw_bytes = block.raw_bytes + data.len() as u64;
    } else {
        assert(block.model().input + data@ =~= block.model().input);
    }
    Ok(())
}

/// The entry of a file.
pub fn file_entry(
    path: String,
    mode: u32,
    mtime_sec: i64,
    mtime_nsec: u32,
    uncompressed_size: u64,
    frame_compressed_size: u64,
    frame_offset: u64,
    block_offset: u64,
    content_xxh3: u64,
) -> (e: Entry)
    ensures
        e@ == (EntryView {
            path: path@,
            kind: EntryKind::File,
            mode,
            mtime_sec,
            mtime_nsec,
            uncompressed_size,
            frame_compressed_size,
            frame_offset,
            block_offset,
            content_xxh3,
            link_target: None,
        }),
{
    Entry {
        path,
        kind: EntryKind::File,
        mode,
        mtime_sec,
        mtime_nsec,
        uncompressed_size,
        frame_compressed_size,
        frame_offset,
        block_offset,
        content_xxh3,
        link_target: None,
    }
}

impl Writer {
    /// Begins to add a file. Its bytes follow by [`Writer::write_chunk`], and
    /// [`Writer::end_file`] adds its entry. A file that was begun before and
    /// not ended is given up.
    pub fn begin_file(&mut self, path: &str, mode: u32, mtime_sec: i64, mtime_nsec: u32) -> (res:
        Result<()>)
        requires
            old(self).wf(),
        ensures
            final(self).wf(),
            final(self).same_setup(*old(self)),
            final(self).body() == old(self).body(),
            old(self).sound() ==> final(self).sound(),
            match path::path_fault(path@) {
                Some(text) => {
                    &&& (res matches Err(e) && e@ == ErrorView::InvalidPath(text))
                    &&& final(self).file() is None
                    &&& final(self).block() == old(self).block_without_file()
                },
                None => res is Ok && old(self).began(
                    path@,
                    mode,
                    mtime_sec,
                    mtime_nsec,
                    *final(self),
                ),
            },
    {
        self.abort_file();
        match validate_archive_path(path) {
            Ok(_) => {},
            Err(e) => {
                return Err(e);
            },
        }
        let mut encoder: Option<FrameEncoder> = None;
        let mut block_offset: u64 = 0;
        let mut placed: bool = true;
        match self.mode {
            WriterMode::PerFile => match new_encoder(self.level, self.workers, self.long_range) {
                Ok(fresh) => {
                    encoder = Some(fresh);
                },
                Err(e) => {
                    return Err(e);
                },
            },
            WriterMode::Solid { .. } => {
                match self.ensure_open_block() {
                    Ok(_) => {},
                    Err(e) => {
                        return Err(e);
                    },
                }
                match &self.open_block {
                    Some(block) => {
                        if block.raw_bytes > 0 {
                            block_offset = block.raw_bytes;
                            placed = false;
                        }
                    },
                    None => {},
                }
            },
        }
        let ghost ready = *self;
        self.open_file = Some(
            OpenFile {
                path: String::from_str(path),
                mode,
                mtime_sec,
                mtime_nsec,
                block_offset,
                placed,
                held: Vec::new(),
                hashing: HashingReader::new(()),
                encoder,
            },
        );
        proof {
            if old(self).sound() {
                lemma_same_body(ready, *self);
                if let Some(block) = self.block() {
                    assert forall|a: int| #![trigger block.pending[a]]
                        0 <= a < block.pending.len() implies archive::end_of(
                        self.listed()[block.pending[a] as int],
                    ) <= block_offset by {
                        assert(ready.waits(block.pending[a] as int));
                    }
                    if placed {
                        assert(block.input =~= Seq::empty());
                    }
                }
            }
        }
        Ok(())
    }

    /// A file of which no byte has come in yet.
    pub open spec fn begun(
        self,
        path: Seq<char>,
        mode: u32,
        mtime_sec: i64,
        mtime_nsec: u32,
    ) -> FileView {
        FileView {
            path,
            mode,
            mtime_sec,
            mtime_nsec,
            block_offset: if self.packing() is Solid {
                self.current_block().raw_bytes
            } else {
                0
            },
            placed: self.packing() is Solid ==> self.current_block().raw_bytes == 0,
            seen: Seq::empty(),
            own_frame: if self.packing() is Solid {
                None
            } else {
                Some((Seq::empty(), self.settings()))
            },
        }
    }

    /// Takes in the next bytes of the file that is being added. In solid mode
    /// they are held back as long as the shared frame, which holds bytes of
    /// others, can take all of the file; where it cannot, it is closed and the
    /// file begins a new one. Where any of this fails the file is given up.
    pub fn write_chunk(&mut self, chunk: &[u8]) -> (res: Result<()>)
        requires
            old(self).wf(),
            old(self).file() is Some,
        ensures
            final(self).wf(),
            final(self).same_setup(*old(self)),
            res is Err ==> final(self).file() is None,
            !assembly::chunk_fits(old(self).file()->Some_0, chunk@) ==> res is Err,
            chunk@.len() == 0 ==> res is Ok,
            match res {
                Ok(_) => old(self).took(chunk@, *final(self)),
                Err(e) => match old(self).packing() {
                    WriterMode::PerFile => {
                        &&& old(self).gave_up(*final(self))
                        &&& if assembly::chunk_fits(old(self).file()->Some_0, chunk@) {
                            e@ == error::source_fault() && chunk@.len() > 0
                        } else {
                            e@ == error::too_large()
                        }
                    },
                    WriterMode::Solid { target_bytes } => {
                        &&& old(self).file()->Some_0.placed ==> old(self).gave_up(*final(self))
                        &&& assembly::feed_fails(
                            old(self).key(),
                            old(self).body(),
                            old(self).block()->Some_0,
                            old(self).file()->Some_0,
                            target_bytes,
                            chunk@,
                            final(self).body(),
                            e@,
                        )
                    },
                },
            },
    {
        let mut file = self.open_file.take().unwrap();
        if u64::MAX - file.hashing.bytes_read < chunk.len() as u64 {
            self.open_file = Some(file);
            assert(*self == *old(self));
            self.abort_file();
            return Err(Error::Io(IoFault::TooLarge));
        }
        match self.mode {
            WriterMode::PerFile => {
                let mut encoder = file.encoder.take().unwrap();
                if chunk.len() > 0 {
                    match encoder_write(&mut encoder, chunk) {
                        Ok(_) => {},
                        Err(e) => {
                            proof {
                                if old(self).sound() {
                                    lemma_same_body(*old(self), *self);
                                }
                            }
                            return Err(Error::Io(IoFault::Source(e)));
                        },
                    }
                }
                file.encoder = Some(encoder);
                assert(chunk@.len() == 0 ==> file.hashing.seen() + chunk@ =~= file.hashing.seen());
                file.hashing.absorb(chunk);
                self.open_file = Some(file);
                proof {
                    if old(self).sound() {
                        lemma_same_body(*old(self), *self);
                    }
                }
                Ok(())
            },
            WriterMode::Solid { target_bytes } => if file.placed {
                self.feed_placed(file, chunk)
            } else {
                self.feed_held(file, chunk, target_bytes)
            },
        }
    }

    /// The writer with this file being added.
    spec fn adding(self, file: OpenFile) -> Writer {
        Writer { open_file: Some(file), ..self }
    }

    /// Takes in the next bytes of a file that is the only one with bytes in the
    /// shared frame.
    fn feed_placed(&mut self, file: OpenFile, chunk: &[u8]) -> (res: Result<()>)
        requires
            old(self).adding(file).wf(),
            old(self).file() is None,
            old(self).packing() is Solid,
            file.placed,
            assembly::chunk_fits(file.model(), chunk@),
        ensures
            final(self).wf(),
            final(self).same_setup(*old(self)),
            final(self).body() == old(self).body(),
            old(self).adding(file).sound() ==> final(self).sound(),
            match res {
                Ok(_) => {
                    &&& final(self).file() == Some(assembly::fed_file(file.model(), chunk@))
                    &&& final(self).block() == Some(
                        assembly::fed_block(old(self).block()->Some_0, chunk@),
                    )
                },
                Err(e) => {
                    &&& e@ == error::source_fault()
                    &&& chunk@.len() > 0
                    &&& final(self).file() is None
                    &&& final(self).block() == Some(
                        assembly::renewed_block(old(self).block()->Some_0, old(self).settings()),
                    )
                },
            },
    {
        let mut file = file;
        let ghost before = old(self).adding(file);
        let mut block = self.open_block.take().unwrap();
        match feed(&mut block, chunk) {
            Ok(_) => {
                file.hashing.absorb(chunk);
                self.open_block = Some(block);
                self.open_file = Some(file);
                proof {
                    if before.sound() {
                        lemma_block_fed(before, *self, chunk@);
                    }
                }
                Ok(())
            },
            Err(e) => {
                self.renew(block);
                proof {
                    if before.sound() {
                        let count = self.entries.len();
                        lemma_renewed(before, *self);
                    }
                }
                Err(e)
            },
        }
    }

    /// Takes in the next bytes of a file that is held back.
    fn feed_held(&mut self, file: OpenFile, chunk: &[u8], target_bytes: u64) -> (res: Result<()>)
        requires
            old(self).adding(file).wf(),
            old(self).file() is None,
            old(self).packing() == (WriterMode::Solid { target_bytes }),
            !file.placed,
            assembly::chunk_fits(file.model(), chunk@),
        ensures
            final(self).wf(),
            final(self).same_setup(*old(self)),
            old(self).adding(file).sound() && res is Ok ==> final(self).sound(),
            res is Err ==> final(self).file() is None,
            match res {
                Ok(_) => assembly::feeds(
                    old(self).key(),
                    old(self).settings(),
                    old(self).body(),
                    old(self).block()->Some_0,
                    file.model(),
                    target_bytes,
                    chunk@,
                    final(self).body(),
                    final(self).block(),
                    final(self).file(),
                ),
                Err(e) => assembly::feed_fails(
                    old(self).key(),
                    old(self).body(),
                    old(self).block()->Some_0,
                    file.model(),
                    target_bytes,
                    chunk@,
                    final(self).body(),
                    e@,
                ),
            },
    {
        let mut file = file;
        let ghost first = file.model();
        let ghost before = old(self).adding(file);
        proof {
            if before.sound() {
                lemma_same_body(before, *self);
            }
        }
        let room: u64 = target_bytes - file.block_offset;
        put_bytes(&mut file.held, chunk);
        file.hashing.absorb(chunk);
        if file.held.len() as u64 <= room {
            self.open_file = Some(file);
            proof {
                if before.sound() {
                    lemma_same_body(before, *self);
                }
            }
            return Ok(());
        }
        match self.close_open_block() {
            Ok(_) => {},
            Err(e) => {
                return Err(e);
            },
        }
        let ghost closed = *self;
        match self.ensure_open_block() {
            Ok(_) => {},
            Err(e) => {
                return Err(e);
            },
        }
        let ghost opened = *self;
        let mut block = self.open_block.take().unwrap();
        match feed(&mut block, file.held.as_slice()) {
            Ok(_) => {
                file.held = Vec::new();
                file.placed = true;
                file.block_offset = 0;
                self.open_block = Some(block);
                self.open_file = Some(file);
                proof {
                    let all = first.seen + chunk@;
                    assert(Seq::<u8>::empty() + all =~= all);
                    assert(self.block() == Some(
                        assembly::fresh_block(closed.stream().len(), closed.settings(), all),
                    ));
                    if before.sound() {
                        lemma_fresh_fed(opened, *self, all);
                    }
                }
                Ok(())
            },
            Err(e) => {
                self.renew(block);
                Err(e)
            },
        }
    }

    /// Puts a shared frame back with nothing in it.
    fn renew(&mut self, block: OpenBlock)
        requires
            old(self).wf(),
            old(self).block() is None,
            old(self).file() is None,
            old(self).packing() is Solid,
            forall|a: int| #![trigger block.pending@[a]]
                0 <= a < block.pending@.len() ==> block.pending@[a] < old(self).listed().len(),
        ensures
            final(self).wf(),
            final(self).same_setup(*old(self)),
            final(self).body() == old(self).body(),
            final(self).file() is None,
            final(self).block() == Some(
                assembly::renewed_block(block.model(), old(self).settings()),
            ),
    {
        let mut block = block;
        match new_encoder(self.level, self.workers, self.long_range) {
            Ok(fresh) => {
                block.encoder = fresh;
            },
            Err(_) => {},
        }
        block.raw_bytes = 0;
        self.open_block = Some(block);
    }

    /// Gives up the file that is being added, if there is one. Nothing of it is
    /// left in the archive.
    pub fn abort_file(&mut self)
        requires
            old(self).wf(),
        ensures
            final(self).wf(),
            old(self).gave_up(*final(self)),
    {
        let placed = match self.open_file.take() {
            Some(file) => file.placed,
            None => false,
        };
        if placed {
            match self.open_block.take() {
                Some(block) => {
                    self.renew(block);
                    proof {
                        if old(self).sound() {
                            let count = self.entries.len();
                            lemma_renewed(*old(self), *self);
                        }
                    }
                    return ;
                },
                None => {},
            }
        }
        proof {
            if old(self).sound() {
                lemma_same_body(*old(self), *self);
            }
        }
    }

    /// Adds the entry of the file whose bytes have come in.
    pub fn end_file(&mut self) -> (res: Result<()>)
        requires
            old(self).wf(),
            old(self).file() is Some,
        ensures
            final(self).wf(),
            final(self).same_setup(*old(self)),
            final(self).file() is None,
            old(self).sound() && (res is Ok || old(self).packing() == WriterMode::PerFile)
                ==> final(self).sound(),
            res is Ok ==> old(self).grows(
                seq![added_file(old(self).file()->Some_0)],
                *final(self),
            ),
            match old(self).packing() {
                WriterMode::PerFile => final(self).block() == old(self).block()
                    && assembly::ends_frame(
                    old(self).key(),
                    old(self).body(),
                    old(self).file()->Some_0,
                    final(self).body(),
                    res,
                ),
                WriterMode::Solid { target_bytes } => assembly::ends_solid(
                    old(self).key(),
                    old(self).body(),
                    old(self).block()->Some_0,
                    old(self).file()->Some_0,
                    target_bytes,
                    final(self).body(),
                    final(self).block(),
                    res,
                ),
            },
    {
        let res = match self.mode {
            WriterMode::PerFile => self.add_file_per_file(),
            WriterMode::Solid { target_bytes } => self.add_file_solid(target_bytes),
        };
        proof {
            if res is Ok {
                lemma_ended(*old(self), *self);
                lemma_grows_by_one(*old(self), added_file(old(self).file()->Some_0));
            }
        }
        res
    }

    /// Adds the file whose bytes have come in, in a frame of its own.
    fn add_file_per_file(&mut self) -> (res: Result<()>)
        requires
            old(self).wf(),
            old(self).file() is Some,
            old(self).packing() == WriterMode::PerFile,
        ensures
            final(self).wf(),
            final(self).same_setup(*old(self)),
            final(self).file() is None,
            final(self).block() == old(self).block(),
            old(self).sound() ==> final(self).sound(),
            assembly::ends_frame(
                old(self).key(),
                old(self).body(),
                old(self).file()->Some_0,
                final(self).body(),
                res,
            ),
    {
        let mut file = self.open_file.take().unwrap();
        let ghost view = file.model();
        assert(forall|i: int| #[trigger] self.waits(i) == old(self).waits(i));
        let packed = encoder_finish(file.encoder.take().unwrap());
        let (uncompressed_size, content_xxh3) = file.hashing.finish();
        let res = self.add_packed(
            file.path,
            file.mode,
            file.mtime_sec,
            file.mtime_nsec,
            uncompressed_size,
            content_xxh3,
            packed,
        );
        proof {
            assert(forall|i: int| i < old(self).listed().len() && self.body() == old(self).body()
                ==> #[trigger] self.waits(i) == old(self).waits(i));
            if res is Ok {
                let payload = packed->Ok_0@;
                let stored = choose|stored: Seq<u8>| #[trigger]
                    assembly::is_appending(
                        old(self).key(),
                        old(self).body(),
                        payload,
                        stored,
                        self.body(),
                    ) && self.listed() == old(self).listed().push(
                        assembly::file_view(
                            view,
                            stored.len() as u64,
                            old(self).stream().len() as u64,
                        ),
                    );
                assert(assembly::is_adding(
                    old(self).key(),
                    old(self).body(),
                    view,
                    self.body(),
                    payload,
                    stored,
                ));
                if old(self).sound() {
                    lemma_sound_added(*old(self), *self, view, payload, stored);
                }
            }
        }
        res
    }

    /// Adds the file whose bytes have come in to the shared frame, and closes
    /// the frame once it holds enough.
    fn add_file_solid(&mut self, target_bytes: u64) -> (res: Result<()>)
        requires
            old(self).wf(),
            old(self).file() is Some,
            old(self).packing() == (WriterMode::Solid { target_bytes }),
        ensures
            final(self).wf(),
            final(self).same_setup(*old(self)),
            final(self).file() is None,
            old(self).sound() && res is Ok ==> final(self).sound(),
            assembly::ends_solid(
                old(self).key(),
                old(self).body(),
                old(self).block()->Some_0,
                old(self).file()->Some_0,
                target_bytes,
                final(self).body(),
                final(self).block(),
                res,
            ),
    {
        let file = self.open_file.take().unwrap();
        let ghost view = file.model();
        let entry_idx: usize = self.entries.len();
        let mut block = self.open_block.take().unwrap();
        let ghost first = block.model();
        if !file.placed {
            match feed(&mut block, file.held.as_slice()) {
                Ok(_) => {},
                Err(e) => {
                    self.open_block = Some(block);
                    return Err(e);
                },
            }
        }
        let ghost laid = block.model();
        let frame_offset: u64 = block.frame_offset;
        let raw: u64 = block.raw_bytes;
        let (uncompressed_size, content_xxh3) = file.hashing.finish();
        let entry = file_entry(
            file.path,
            file.mode,
            file.mtime_sec,
            file.mtime_nsec,
            uncompressed_size,
            0,
            frame_offset,
            file.block_offset,
            content_xxh3,
        );
        assert(entry@ == assembly::file_view(view, 0, frame_offset));
        block.pending.push(entry_idx);
        self.push_entry(entry, Ghost(view.seen));
        let ghost full = self.holding(block);
        proof {
            assert(full.block() == Some(assembly::joined_block(laid, entry_idx)));
            assert(full.body() == assembly::entered(old(self).body(), first, view));
            if old(self).sound() {
                lemma_sound_entered(*old(self), full, laid);
            }
        }
        if raw >= target_bytes {
            self.close_block(block)
        } else {
            self.open_block = Some(block);
            assert(*self == full);
            Ok(())
        }
    }

    /// Appends an entry; `content` is what it was given.
    fn push_entry(&mut self, entry: Entry, content: Ghost<Seq<u8>>)
        requires
            old(self).wf(),
            assembly::proper(entry@),
        ensures
            final(self).wf(),
            final(self).same_setup(*old(self)),
            final(self).stream() == old(self).stream(),
            final(self).listed() == old(self).listed().push(entry@),
            final(self).contents() == old(self).contents().push(content@),
            final(self).block() == old(self).block(),
            final(self).file() == old(self).file(),
            final(self).open_block == old(self).open_block,
            final(self).open_file == old(self).open_file,
            final(self).out == old(self).out,
    {
        let ghost was = self.listed();
        self.entries.push(entry);
        self.contents = Ghost(self.contents@.push(content@));
        proof {
            assert(self.listed() =~= was.push(entry@));
            assert forall|i: int| 0 <= i < self.listed().len() implies assembly::proper(
                #[trigger] self.listed()[i],
            ) by {
                if i < was.len() {
                    assert(assembly::proper(was[i]));
                }
            }
        }
    }
}

impl Writer {
    /// Adds a file with this content.
    pub fn add_file(
        &mut self,
        path: &str,
        mode: u32,
        mtime_sec: i64,
        mtime_nsec: u32,
        content: &[u8],
    ) -> (res: Result<()>)
        requires
            old(self).wf(),
        ensures
            final(self).wf(),
            final(self).same_setup(*old(self)),
            final(self).file() is None,
            old(self).sound() && (res is Ok || old(self).packing() == WriterMode::PerFile
                || path::path_fault(path@) is Some || (old(self).begun(
                path@,
                mode,
                mtime_sec,
                mtime_nsec,
            ).placed && final(self).body() == old(self).body())) ==> final(self).sound(),
            match path::path_fault(path@) {
                Some(text) => {
                    &&& (res matches Err(e) && e@ == ErrorView::InvalidPath(text))
                    &&& final(self).body() == old(self).body()
                    &&& final(self).block() == old(self).block_without_file()
                },
                None => {
                    let file = old(self).begun(path@, mode, mtime_sec, mtime_nsec);
                    &&& match old(self).packing() {
                        WriterMode::PerFile => final(self).block() == old(self).block()
                            && assembly::ends_frame(
                            old(self).key(),
                            old(self).body(),
                            assembly::fed_file(file, content@),
                            final(self).body(),
                            res,
                        ),
                        WriterMode::Solid { target_bytes } => assembly::adds_solid(
                            old(self).key(),
                            old(self).settings(),
                            old(self).body(),
                            old(self).current_block(),
                            file,
                            target_bytes,
                            content@,
                            final(self).body(),
                            final(self).block(),
                            res,
                        ),
                    }
                    &&& res is Ok ==> old(self).grows(
                        seq![added_file(assembly::fed_file(file, content@))],
                        *final(self),
                    )
                },
            },
    {
        match self.begin_file(path, mode, mtime_sec, mtime_nsec) {
            Ok(_) => {},
            Err(e) => {
                return Err(e);
            },
        }
        let ghost ready = *self;
        let ghost file = self.file()->Some_0;
        assert(content.len() == content@.len());
        assert(Seq::<u8>::empty() + content@ =~= content@);
        match self.write_chunk(content) {
            Ok(_) => {},
            Err(e) => {
                return Err(e);
            },
        }
        let ghost fed = *self;
        let res = self.end_file();
        proof {
            assert(assembly::fed_file(file, content@).seen == content@);
            if res is Ok {
                lemma_took(ready, content@, fed);
                assert(added_file(assembly::fed_file(file, content@)) == added_file(
                    fed.file()->Some_0,
                ));
                lemma_grows_by_nothing(ready);
            }
        }
        res
    }

    /// Adds a directory.
    pub fn add_dir(&mut self, path: &str, mode: u32, mtime_sec: i64, mtime_nsec: u32) -> (res:
        Result<()>)
        requires
            old(self).wf(),
        ensures
            final(self).wf(),
            final(self).same_setup(*old(self)),
            final(self).stream() == old(self).stream(),
            final(self).block() == old(self).block(),
            final(self).file() == old(self).file(),
            old(self).sound() ==> final(self).sound(),
            match path::path_fault(path@) {
                Some(text) => {
                    &&& (res matches Err(e) && e@ == ErrorView::InvalidPath(text))
                    &&& final(self).body() == old(self).body()
                },
                None => {
                    &&& res is Ok
                    &&& final(self).listed() == old(self).listed().push(
                        assembly::dir_view(path@, mode, mtime_sec, mtime_nsec),
                    )
                    &&& old(self).grows(
                        seq![added_empty(final(self).listed().last())],
                        *final(self),
                    )
                    &&& final(self).contents() == old(self).contents().push(Seq::empty())
                },
            },
    {
        match validate_archive_path(path) {
            Ok(_) => {},
            Err(e) => {
                return Err(e);
            },
        }
        let entry = Entry {
            path: String::from_str(path),
            kind: EntryKind::Dir,
            mode,
            mtime_sec,
            mtime_nsec,
            uncompressed_size: 0,
            frame_compressed_size: 0,
            frame_offset: 0,
            block_offset: 0,
            content_xxh3: 0,
            link_target: None,
        };
        assert(entry@ == assembly::dir_view(path@, mode, mtime_sec, mtime_nsec));
        self.push_entry(entry, Ghost(Seq::empty()));
        proof {
            lemma_grows_by_one(*old(self), added_empty(entry@));
            assert(assembly::accounts(self.listed()) =~= assembly::accounts(
                old(self).listed(),
            ).push(entry@));
            if old(self).sound() {
                lemma_sound_pushed(*old(self), *self, entry@);
            }
        }
        Ok(())
    }

    /// Adds a link that points to `target`.
    pub fn add_symlink(
        &mut self,
        path: &str,
        target: &str,
        mtime_sec: i64,
        mtime_nsec: u32,
    ) -> (res: Result<()>)
        requires
            old(self).wf(),
        ensures
            final(self).wf(),
            final(self).same_setup(*old(self)),
            final(self).stream() == old(self).stream(),
            final(self).block() == old(self).block(),
            final(self).file() == old(self).file(),
            old(self).sound() ==> final(self).sound(),
            match path::path_fault(path@) {
                Some(text) => {
                    &&& (res matches Err(e) && e@ == ErrorView::InvalidPath(text))
                    &&& final(self).body() == old(self).body()
                },
                None => {
                    &&& res is Ok
                    &&& final(self).listed() == old(self).listed().push(
                        assembly::link_view(path@, target@, mtime_sec, mtime_nsec),
                    )
                    &&& old(self).grows(
                        seq![added_empty(final(self).listed().last())],
                        *final(self),
                    )
                    &&& final(self).contents() == old(self).contents().push(Seq::empty())
                },
            },
    {
        match validate_archive_path(path) {
            Ok(_) => {},
            Err(e) => {
                return Err(e);
            },
        }
        let entry = Entry {
            path: String::from_str(path),
            kind: EntryKind::Symlink,
            mode: 0,
            mtime_sec,
            mtime_nsec,
            uncompressed_size: 0,
            frame_compressed_size: 0,
            frame_offset: 0,
            block_offset: 0,
            content_xxh3: 0,
            link_target: Some(String::from_str(target)),
        };
        assert(entry@ == assembly::link_view(path@, target@, mtime_sec, mtime_nsec));
        self.push_entry(entry, Ghost(Seq::empty()));
        proof {
            lemma_grows_by_one(*old(self), added_empty(entry@));
            assert(assembly::accounts(self.listed()) =~= assembly::accounts(
                old(self).listed(),
            ).push(entry@));
            if old(self).sound() {
                lemma_sound_pushed(*old(self), *self, entry@);
            }
        }
        Ok(())
    }

    /// Whether an archive with these entries is laid out as the packing asks:
    /// the files in order, with one frame for each without gaps, or with shared
    /// frames that keep to their target.
    pub open spec fn lies_right(self, archive: Seq<u8>, entries: Seq<EntryView>) -> bool {
        &&& archive::in_order(entries)
        &&& match self.packing() {
            WriterMode::PerFile => archive::per_file_layout(
                archive,
                self.key(),
                self.head_size(),
                entries,
            ),
            WriterMode::Solid { target_bytes } => archive::within_target(entries, target_bytes),
        }
    }

    /// Appends the index and the footer, and hands out what was written since
    /// the last time. A file that was begun and not ended is given up.
    pub fn finish(self) -> (res: Result<Vec<u8>>)
        requires
            self.wf(),
        ensures
            match res {
                Ok(rest) => exists|last: Body| #[trigger]
                    assembly::finishes(self.key(), last, self.handed_out() + rest@)
                        && assembly::ends_at(
                        self.key(),
                        self.body(),
                        self.block_without_file(),
                        last,
                    ) && assembly::accounts(last.entries) == assembly::accounts(self.listed()) && (
                    self.sound() ==> archive::is_archive(
                        self.handed_out() + rest@,
                        self.head(),
                        self.key(),
                        last.entries,
                        self.contents(),
                    ) && self.lies_right(self.handed_out() + rest@, last.entries)),
                Err(e) => {
                    ||| index::index_write(self.listed()).fault == Some(e@)
                    ||| e@ is Crypto && self.key() is Some
                    ||| (self.block_without_file() matches Some(block) && assembly::frame_fault(
                        self.key(),
                        self.stream(),
                        block.settings,
                        block.input,
                        e@,
                    ))
                    ||| e@ == error::too_large() && exists|last: Body| #[trigger]
                        assembly::ends_at(
                            self.key(),
                            self.body(),
                            self.block_without_file(),
                            last,
                        ) && assembly::end_overflows(self.key(), last)
                },
            },
            index::index_write(self.listed()).fault is Some ==> res is Err,
            self.block() is None ==> match index::index_write(self.listed()).fault {
                Some(fault) => res matches Err(e) && e@ == fault,
                None => {
                    let size = index::index_write(self.listed()).bytes.len();
                    self.key() is None && self.stream().len() + size + 32 <= u64::MAX ==> res is Ok
                },
            },
    {
        let mut w = self;
        w.abort_file();
        let ghost ended = w;
        match w.close_open_block() {
            Ok(_) => {},
            Err(e) => {
                return Err(e);
            },
        }
        let ghost last = w.body();
        proof {
            assert(assembly::ends_at(self.key(), self.body(), self.block_without_file(), last));
            lemma_closed_fault(ended, last);
        }
        w.finish_closed()
    }

    /// The part of [`Writer::finish`] that follows once no shared frame is
    /// open.
    fn finish_closed(self) -> (res: Result<Vec<u8>>)
        requires
            self.wf(),
            self.block() is None,
        ensures
            match res {
                Ok(rest) => assembly::finishes(
                    self.key(),
                    self.body(),
                    self.handed_out() + rest@,
                ) && (self.sound() ==> archive::is_archive(
                    self.handed_out() + rest@,
                    self.head(),
                    self.key(),
                    self.listed(),
                    self.contents(),
                ) && self.lies_right(self.handed_out() + rest@, self.listed())),
                Err(e) => {
                    ||| index::index_write(self.listed()).fault == Some(e@)
                    ||| index::index_write(self.listed()).fault is None && e@ is Crypto
                        && self.key() is Some
                    ||| index::index_write(self.listed()).fault is None && e@
                        == error::too_large() && assembly::end_overflows(self.key(), self.body())
                },
            },
            index::index_write(self.listed()).fault is Some ==> res is Err,
            self.key() is None && index::index_write(self.listed()).fault is None
                && self.stream().len() + index::index_write(self.listed()).bytes.len() + 32
                <= u64::MAX ==> res is Ok,
    {
        let ghost last = self.body();
        let ghost listing = index::index_write(last.entries);
        let mut w = self;
        let mut index_buf: Vec<u8> = Vec::new();
        match write_index(&mut index_buf, w.entries.as_slice()) {
            Ok(_) => {},
            Err(e) => {
                return Err(e);
            },
        }
        assert(index_buf@ =~= listing.bytes);
        let index_xxh3: u64 = codec::xxh3(index_buf.as_slice());
        let index_offset: u64 = w.out.bytes_written;
        let index_size: u64 = match w.write_frame(index_buf) {
            Ok(size) => size,
            Err(e) => {
                return Err(e);
            },
        };
        let ghost stored = choose|stored: Seq<u8>| #[trigger]
            assembly::is_stored(self.key(), listing.bytes, stored) && index_size == stored.len()
                && w.stream() == last.stream + stored;
        let footer = Footer { index_offset, index_size, index_xxh3, flags: 0 };
        let mut end: Vec<u8> = Vec::new();
        match footer.write_to(&mut end) {
            Ok(_) => {},
            Err(e) => {
                return Err(e);
            },
        }
        proof {
            assert(end@ =~= crate::format::footer_bytes(footer));
            archive::lemma_footer_size(footer);
        }
        match w.write_stored(end.as_slice()) {
            Ok(_) => {},
            Err(e) => {
                return Err(e);
            },
        }
        let ghost whole = w.stream();
        let rest = w.out.into_inner();
        proof {
            assert(whole == last.stream + stored + crate::format::footer_bytes(footer));
            assert(whole == self.handed_out() + rest@);
            assert(assembly::is_finish(self.key(), last, whole, stored)) by {
                reveal(assembly::is_finish);
            }
            if self.sound() {
                lemma_finished(self, whole, stored, footer);
            }
            assert(assembly::finishes(self.key(), self.body(), self.handed_out() + rest@));
        }
        Ok(rest)
    }
}

/// A file as something that was added.
pub open spec fn added_file(file: FileView) -> Added {
    Added { account: assembly::account(assembly::file_view(file, 0, 0)), content: file.seen }
}

/// Something without content as something that was added.
pub open spec fn added_empty(e: EntryView) -> Added {
    Added { account: assembly::account(e), content: Seq::empty() }
}

/// Taking in bytes of a file adds nothing yet.
proof fn lemma_took(before: Writer, chunk: Seq<u8>, after: Writer)
    requires
        before.took(chunk, after),
    ensures
        before.grows(Seq::empty(), after),
{
    if after.body() != before.body() {
        lemma_closed_accounts(
            before.key(),
            before.body(),
            before.block()->Some_0,
            after.body(),
        );
    }
    lemma_grows_by_nothing(before);
}

/// With nothing behind them the accounts and the contents are what they are.
proof fn lemma_grows_by_nothing(before: Writer)
    ensures
        assembly::accounts(before.listed()) + assembly::accounts_of(Seq::empty())
            == assembly::accounts(before.listed()),
        before.contents() + assembly::contents_of(Seq::empty()) == before.contents(),
{
    assert(assembly::accounts(before.listed()) + assembly::accounts_of(Seq::empty())
        =~= assembly::accounts(before.listed()));
    assert(before.contents() + assembly::contents_of(Seq::empty()) =~= before.contents());
}

/// One more account and one more content.
proof fn lemma_grows_by_one(before: Writer, added: Added)
    ensures
        assembly::accounts(before.listed()) + assembly::accounts_of(seq![added])
            == assembly::accounts(before.listed()).push(added.account),
        before.contents() + assembly::contents_of(seq![added]) == before.contents().push(
            added.content,
        ),
{
    assert(assembly::accounts(before.listed()) + assembly::accounts_of(seq![added])
        =~= assembly::accounts(before.listed()).push(added.account));
    assert(before.contents() + assembly::contents_of(seq![added]) =~= before.contents().push(
        added.content,
    ));
}

/// Any number of pieces of a file add nothing yet.
proof fn lemma_pieces_add_nothing(states: Seq<Writer>, chunks: Seq<Seq<u8>>)
    requires
        states.len() == chunks.len() + 1,
        forall|k: int| #![trigger states[k]]
            0 <= k < chunks.len() ==> states[k].took(chunks[k], states[k + 1]),
    ensures
        states[0].grows(Seq::empty(), states.last()),
    decreases chunks.len(),
{
    lemma_grows_by_nothing(states[0]);
    if chunks.len() > 0 {
        let n = chunks.len() as int;
        let (earlier, fewer) = (states.drop_last(), chunks.drop_last());
        assert forall|k: int| #![trigger earlier[k]] 0 <= k < fewer.len() implies earlier[k].took(
            fewer[k],
            earlier[k + 1],
        ) by {
            assert(states[k].took(chunks[k], states[k + 1]));
        }
        lemma_pieces_add_nothing(earlier, fewer);
        assert(states[n - 1].took(chunks[n - 1], states[n]));
        lemma_took(states[n - 1], chunks[n - 1], states[n]);
        lemma_grows_by_nothing(states[n - 1]);
    }
}

/// What the steps of a writer added, one after the other, is what it has been
/// given in all: nothing of it is lost, and nothing else is there.
pub proof fn law_steps_add_up(states: Seq<Writer>, added: Seq<Seq<Added>>)
    requires
        states.len() == added.len() + 1,
        forall|k: int| #![trigger states[k]]
            0 <= k < added.len() ==> states[k].grows(added[k], states[k + 1]),
    ensures
        states[0].grows(assembly::in_turn(added), states.last()),
    decreases added.len(),
{
    if added.len() == 0 {
        lemma_grows_by_nothing(states[0]);
    } else {
        let n = added.len() as int;
        let (earlier, fewer) = (states.drop_last(), added.drop_last());
        assert forall|k: int| #![trigger earlier[k]] 0 <= k < fewer.len() implies earlier[k].grows(
            fewer[k],
            earlier[k + 1],
        ) by {
            assert(states[k].grows(added[k], states[k + 1]));
        }
        law_steps_add_up(earlier, fewer);
        let (first, last) = (assembly::in_turn(fewer), added.last());
        assert(states[n - 1].grows(added[n - 1], states[n]));
        let start = assembly::accounts(states[0].listed());
        assert(start + assembly::accounts_of(first) + assembly::accounts_of(last) =~= start
            + assembly::accounts_of(first + last));
        assert(states[0].contents() + assembly::contents_of(first) + assembly::contents_of(last)
            =~= states[0].contents() + assembly::contents_of(first + last));
    }
}

/// A file that is given up after any number of pieces leaves no trace: what was
/// added before it, and whether that can be read back, is as it was.
pub proof fn law_given_up_file_leaves_no_trace(
    before: Writer,
    path: Seq<char>,
    mode: u32,
    mtime_sec: i64,
    mtime_nsec: u32,
    chunks: Seq<Seq<u8>>,
    states: Seq<Writer>,
    after: Writer,
)
    requires
        states.len() == chunks.len() + 1,
        before.began(path, mode, mtime_sec, mtime_nsec, states[0]),
        forall|k: int| #![trigger states[k]]
            0 <= k < chunks.len() ==> states[k].took(chunks[k], states[k + 1]),
        states.last().gave_up(after),
    ensures
        before.grows(Seq::empty(), after),
        assembly::accounts(after.listed()) == assembly::accounts(before.listed()),
        after.contents() == before.contents(),
        before.sound() ==> after.sound(),
        after.file() is None,
{
    lemma_pieces_add_nothing(states, chunks);
    lemma_grows_by_nothing(states[0]);
    lemma_grows_by_nothing(before);
}

/// A finished archive holds what was added to a fresh writer, in that order.
pub proof fn law_session_is_stored(
    fresh: Writer,
    added: Seq<Added>,
    w: Writer,
    archive: Seq<u8>,
    entries: Seq<EntryView>,
)
    requires
        fresh.listed().len() == 0,
        fresh.contents().len() == 0,
        fresh.grows(added, w),
        assembly::accounts(entries) == assembly::accounts(w.listed()),
        archive::is_archive(archive, w.head(), w.key(), entries, w.contents()),
    ensures
        assembly::accounts(entries) == assembly::accounts_of(added),
        archive::is_archive(
            archive,
            w.head(),
            w.key(),
            entries,
            assembly::contents_of(added),
        ),
{
    assert(assembly::accounts(fresh.listed()) + assembly::accounts_of(added)
        =~= assembly::accounts_of(added));
    assert(fresh.contents() + assembly::contents_of(added) =~= assembly::contents_of(added));
}

/// A file that was ended is accounted for behind what was there.
proof fn lemma_ended(before: Writer, after: Writer)
    requires
        before.file() is Some,
        match before.packing() {
            WriterMode::PerFile => assembly::ends_frame(
                before.key(),
                before.body(),
                before.file()->Some_0,
                after.body(),
                Ok(()),
            ),
            WriterMode::Solid { target_bytes } => assembly::ends_solid(
                before.key(),
                before.body(),
                before.block()->Some_0,
                before.file()->Some_0,
                target_bytes,
                after.body(),
                after.block(),
                Ok(()),
            ),
        },
    ensures
        assembly::accounts(after.listed()) == assembly::accounts(before.listed()).push(
            assembly::account(assembly::file_view(before.file()->Some_0, 0, 0)),
        ),
        after.contents() == before.contents().push(before.file()->Some_0.seen),
{
    let file = before.file()->Some_0;
    match before.packing() {
        WriterMode::PerFile => {
            assert(assembly::accounts(after.listed()) =~= assembly::accounts(
                before.listed(),
            ).push(assembly::account(assembly::file_view(file, 0, 0))));
        },
        WriterMode::Solid { target_bytes } => {
            let block = before.block()->Some_0;
            let laid = if file.placed {
                block
            } else {
                assembly::fed_block(block, file.seen)
            };
            let now = assembly::entered(before.body(), laid, file);
            let joined = assembly::joined_block(laid, before.listed().len() as usize);
            if laid.raw_bytes >= target_bytes {
                lemma_closed_accounts(before.key(), now, joined, after.body());
            }
            assert(assembly::accounts(now.entries) =~= assembly::accounts(before.listed()).push(
                assembly::account(assembly::file_view(file, 0, 0)),
            ));
        },
    }
}

/// Closing a shared frame leaves what the entries say of what was added.
proof fn lemma_closed_accounts(key: Option<Seq<u8>>, before: Body, block: BlockView, after: Body)
    requires
        assembly::closes(key, before, block, after),
    ensures
        assembly::accounts(after.entries) == assembly::accounts(before.entries),
        after.contents == before.contents,
        after.entries.len() == before.entries.len(),
{
    let (payload, stored) = choose|payload: Seq<u8>, stored: Seq<u8>| #[trigger]
        assembly::is_closing(key, before, block, after, payload, stored);
    lemma_same_places(before.entries, after.entries);
}

/// Headers that could be read stay what they are when more follows.
proof fn lemma_head_stable(s: Seq<u8>, more: Seq<u8>)
    ensures
        reader::head_of(s) is Ok ==> reader::head_of(s + more) == reader::head_of(s),
{
    if reader::head_of(s) is Ok {
        let t = s + more;
        assert(t.subrange(0, 4) =~= s.subrange(0, 4));
        assert(t.subrange(4, 6) =~= s.subrange(4, 6));
        assert(t.subrange(6, 8) =~= s.subrange(6, 8));
        assert(t.subrange(8, 12) =~= s.subrange(8, 12));
        assert(t.subrange(12, 20) =~= s.subrange(12, 20));
        let far = t.skip(32);
        let near = s.skip(32);
        if near.len() >= 40 {
            assert(far[0] == near[0] && far[1] == near[1]);
            assert(far.subrange(4, 8) =~= near.subrange(4, 8));
            assert(far.subrange(8, 12) =~= near.subrange(8, 12));
            assert(far.subrange(12, 16) =~= near.subrange(12, 16));
            assert(far.subrange(16, 32) =~= near.subrange(16, 32));
        }
    }
}

/// What an archive holds it still holds when more is appended.
proof fn lemma_holds_stable(
    s: Seq<u8>,
    more: Seq<u8>,
    key: Option<Seq<u8>>,
    e: EntryView,
    content: Seq<u8>,
)
    requires
        archive::holds(s, key, e, content),
    ensures
        archive::holds(s + more, key, e, content),
{
    let start = e.frame_offset as int;
    let end = e.frame_offset + e.frame_compressed_size;
    assert((s + more).subrange(start, end) =~= s.subrange(start, end));
}

/// A file that lies within the data of a frame lies there still when the data
/// goes on.
proof fn lemma_content_stable(e: EntryView, data: Seq<u8>, more: Seq<u8>)
    ensures
        extract::content_of(e, data) is Ok ==> extract::content_of(e, data + more)
            == extract::content_of(e, data),
{
    if extract::content_of(e, data) is Ok {
        let start = e.block_offset as int;
        let end = e.block_offset + e.uncompressed_size;
        assert((data + more).subrange(start, end) =~= data.subrange(start, end));
    }
}

/// What was added stays sound where only the file that is being added changes.
proof fn lemma_same_body(before: Writer, after: Writer)
    requires
        before.body_sound(),
        after.same_setup(before),
        after.body() == before.body(),
        after.block() == before.block(),
    ensures
        after.body_sound(),
{
    assert(forall|i: int| #[trigger] after.waits(i) == before.waits(i));
}

/// The entries of a shared frame find their content in it still when it has
/// taken more in.
proof fn lemma_waits_fed(before: Writer, after: Writer, chunk: Seq<u8>)
    requires
        before.body_sound(),
        before.block() is Some,
        before.block()->Some_0.raw_bytes + chunk.len() <= u64::MAX,
        after.same_setup(before),
        after.body() == before.body(),
        after.block() == Some(assembly::fed_block(before.block()->Some_0, chunk)),
    ensures
        after.body_sound(),
{
    let block = before.block()->Some_0;
    let now = after.block()->Some_0;
    assert forall|i: int| #[trigger] before.waits(i) implies after.waits(i) by {
        lemma_content_stable(before.listed()[i], block.input, chunk);
    }
    assert forall|a: int| #![trigger now.pending[a]] 0 <= a < now.pending.len() implies {
        &&& now.pending[a] < after.listed().len()
        &&& after.listed()[now.pending[a] as int].kind == EntryKind::File
        &&& after.waits(now.pending[a] as int)
    } by {
        assert(now.pending[a] == block.pending[a]);
        assert(before.waits(block.pending[a] as int));
    }
    assert forall|i: int|
        #![trigger after.listed()[i]]
        0 <= i < after.listed().len() && after.listed()[i].kind
            == EntryKind::File implies archive::holds(
        after.stream(),
        after.key(),
        after.listed()[i],
        after.contents()[i],
    ) || after.waits(i) by {
        assert(before.listed()[i].kind == EntryKind::File);
        if before.waits(i) {
            assert(after.waits(i));
        }
    }
}

/// Taking in more bytes of a file that is placed keeps a writer sound.
proof fn lemma_block_fed(before: Writer, after: Writer, chunk: Seq<u8>)
    requires
        before.sound(),
        before.file() is Some,
        before.file()->Some_0.placed,
        before.file()->Some_0.own_frame is None,
        before.block()->Some_0.raw_bytes + chunk.len() <= u64::MAX,
        after.same_setup(before),
        after.body() == before.body(),
        after.block() == Some(assembly::fed_block(before.block()->Some_0, chunk)),
        after.file() == Some(assembly::fed_file(before.file()->Some_0, chunk)),
    ensures
        after.sound(),
{
    lemma_waits_fed(before, after, chunk);
    let block = before.block()->Some_0;
    let now = after.block()->Some_0;
    assert forall|a: int| #![trigger now.pending[a]]
        0 <= a < now.pending.len() implies archive::end_of(
        after.listed()[now.pending[a] as int],
    ) <= after.file()->Some_0.block_offset by {
        assert(now.pending[a] == block.pending[a]);
    }
}

/// A file that begins a new shared frame keeps a writer sound.
proof fn lemma_fresh_fed(before: Writer, after: Writer, input: Seq<u8>)
    requires
        before.sound(),
        before.block() is Some,
        before.block()->Some_0.pending.len() == 0,
        before.block()->Some_0.input.len() == 0,
        before.block()->Some_0.raw_bytes + input.len() <= u64::MAX,
        after.same_setup(before),
        after.body() == before.body(),
        after.block() == Some(assembly::fed_block(before.block()->Some_0, input)),
        after.file() matches Some(file) && file.placed && file.own_frame is None
            && file.block_offset == 0 && file.seen == input,
    ensures
        after.sound(),
{
    lemma_waits_fed(before, after, input);
    assert(after.block()->Some_0.input =~= input);
}

/// Giving up the only file that has bytes in the shared frame keeps a writer
/// sound.
proof fn lemma_renewed(before: Writer, after: Writer)
    requires
        before.sound(),
        before.file() is Some,
        before.file()->Some_0.placed,
        before.file()->Some_0.own_frame is None,
        before.block() is Some,
        before.listed().len() <= usize::MAX,
        after.same_setup(before),
        after.body() == before.body(),
        after.file() is None,
        after.block() == Some(
            assembly::renewed_block(before.block()->Some_0, before.settings()),
        ),
    ensures
        after.sound(),
{
    let block = before.block()->Some_0;
    let now = after.block()->Some_0;
    assert forall|a: int| #![trigger now.pending[a]] 0 <= a < now.pending.len() implies {
        &&& now.pending[a] < after.listed().len()
        &&& after.listed()[now.pending[a] as int].kind == EntryKind::File
        &&& after.waits(now.pending[a] as int)
    } by {
        assert(now.pending[a] == block.pending[a]);
        let i = block.pending[a] as int;
        let e = before.listed()[i];
        assert(before.waits(i));
        assert(archive::end_of(e) <= 0);
        assert(block.input.subrange(0, 0) =~= Seq::<u8>::empty());
        assert(now.input.subrange(0, 0) =~= Seq::<u8>::empty());
        assert(now.pending.contains(i as usize));
    }
    assert forall|i: int|
        #![trigger after.listed()[i]]
        0 <= i < after.listed().len() && after.listed()[i].kind
            == EntryKind::File implies archive::holds(
        after.stream(),
        after.key(),
        after.listed()[i],
        after.contents()[i],
    ) || after.waits(i) by {
        assert(before.listed()[i].kind == EntryKind::File);
        if before.waits(i) {
            let a = choose|a: int| 0 <= a < block.pending.len() && block.pending[a] == i as usize;
            assert(now.pending[a] == i as usize);
            assert(block.pending[a] < before.listed().len());
            assert(after.waits(now.pending[a] as int));
            assert(now.pending[a] as int == i);
        }
    }
}

/// Closing a shared frame leaves every file of it stored.
proof fn lemma_sound_closed(before: Writer, after: Writer, stored: Seq<u8>, payload: Seq<u8>)
    requires
        before.sound(),
        before.block() is Some,
        before.packing() is Solid,
        after.block() is None,
        after.file() is None,
        stored.len() > 0,
        stored.len() <= u64::MAX,
        before.listed().len() <= usize::MAX,
        frame::unsealed(before.key(), stored, "encrypted frame too small"@) == Ok::<
            Seq<u8>,
            ErrorView,
        >(payload),
        codec::zstd_decoded(payload) == Some(before.block()->Some_0.input),
        codec::encoded(before.block()->Some_0.input, payload),
        after.stream() == before.stream() + stored,
        after.listed() == assembly::settled(
            before.listed(),
            before.block()->Some_0.pending,
            stored.len() as u64,
        ),
        after.contents() == before.contents(),
        after.same_setup(before),
    ensures
        after.sound(),
{
    let block = before.block()->Some_0;
    let size = stored.len() as u64;
    let was = before.listed();
    let is = after.listed();
    assert(after.stream().subrange(block.frame_offset as int, block.frame_offset + size)
        =~= stored);
    assert forall|i: int|
        #![trigger after.listed()[i]]
        0 <= i < is.len() && is[i].kind == EntryKind::File implies archive::holds(
        after.stream(),
        after.key(),
        is[i],
        after.contents()[i],
    ) by {
        assert(was[i].kind == EntryKind::File);
        if block.pending.contains(i as usize) {
            let a = choose|a: int| 0 <= a < block.pending.len() && block.pending[a] == i as usize;
            assert(before.waits(block.pending[a] as int));
            assert(block.pending[a] as int == i);
        } else {
            assert(!before.waits(i));
            lemma_holds_stable(
                before.stream(),
                stored,
                before.key(),
                was[i],
                before.contents()[i],
            );
        }
    }
    assert forall|i: int, j: int| #![trigger is[i], is[j]]
        0 <= i < is.len() && 0 <= j < is.len() && is[i].kind == EntryKind::File && is[j].kind
            == EntryKind::File && is[i].frame_offset
            == is[j].frame_offset implies is[i].frame_compressed_size
        == is[j].frame_compressed_size by {
        lemma_block_apart(before, i);
        lemma_block_apart(before, j);
        assert(was[i].frame_offset == is[i].frame_offset);
        assert(was[j].frame_offset == is[j].frame_offset);
    }
    lemma_same_places(was, is);
}

/// Entries that differ in nothing but the sizes of their frames are in order,
/// and keep to a target, together.
proof fn lemma_same_places(was: Seq<EntryView>, is: Seq<EntryView>)
    requires
        was.len() == is.len(),
        forall|i: int| #![trigger is[i]]
            0 <= i < is.len() ==> is[i] == (EntryView {
                frame_compressed_size: is[i].frame_compressed_size,
                ..was[i]
            }),
    ensures
        archive::in_order(was) ==> archive::in_order(is),
        forall|target: u64|
            archive::within_target(was, target) ==> #[trigger] archive::within_target(is, target),
        assembly::accounts(is) == assembly::accounts(was),
{
    if archive::in_order(was) {
        assert forall|i: int, j: int| #![trigger is[i], is[j]]
            0 <= i < j < is.len() && is[i].kind == EntryKind::File && is[j].kind
                == EntryKind::File implies {
            &&& is[i].frame_offset <= is[j].frame_offset
            &&& is[i].frame_offset == is[j].frame_offset ==> archive::end_of(is[i])
                <= is[j].block_offset
        } by {
            assert(was[i].kind == EntryKind::File && was[j].kind == EntryKind::File);
        }
    }
    assert forall|target: u64| archive::within_target(was, target) implies
        #[trigger] archive::within_target(is, target) by {
        assert forall|j: int| #![trigger is[j]]
            0 <= j < is.len() && is[j].kind == EntryKind::File && is[j].block_offset
                > 0 implies archive::end_of(is[j]) <= target by {
            assert(was[j].kind == EntryKind::File);
        }
        assert forall|i: int, j: int| #![trigger is[i], is[j]]
            0 <= i < is.len() && 0 <= j < is.len() && i != j && is[i].kind == EntryKind::File
                && is[j].kind == EntryKind::File && is[i].frame_offset == is[j].frame_offset
                && is[i].uncompressed_size > 0 implies archive::end_of(is[j]) <= target by {
            assert(was[i].kind == EntryKind::File && was[j].kind == EntryKind::File);
        }
    }
    assert(assembly::accounts(is) =~= assembly::accounts(was)) by {
        assert forall|i: int| 0 <= i < is.len() implies assembly::account(is[i])
            == assembly::account(was[i]) by {}
    }
}

/// The files of the open shared frame are those at its place.
proof fn lemma_block_apart(w: Writer, i: int)
    requires
        w.sound(),
        w.block() is Some,
        0 <= i < w.listed().len() <= usize::MAX,
        w.listed()[i].kind == EntryKind::File,
    ensures
        w.block()->Some_0.pending.contains(i as usize) <==> w.listed()[i].frame_offset
            == w.block()->Some_0.frame_offset,
{
    let block = w.block()->Some_0;
    if block.pending.contains(i as usize) {
        let a = choose|a: int| 0 <= a < block.pending.len() && block.pending[a] == i as usize;
        assert(w.waits(block.pending[a] as int));
        assert(block.pending[a] as int == i);
    } else {
        assert(!w.waits(i));
        assert(archive::holds(w.stream(), w.key(), w.listed()[i], w.contents()[i]));
    }
}

/// Whether an index can be written depends on the names in it alone.
proof fn lemma_same_fault(a: Seq<EntryView>, b: Seq<EntryView>)
    requires
        a.len() == b.len(),
        forall|i: int| #![trigger a[i]] #![trigger b[i]]
            0 <= i < a.len() ==> assembly::same_names(a[i], b[i]),
    ensures
        index::entries_write(a).fault == index::entries_write(b).fault,
        index::index_write(a).fault == index::index_write(b).fault,
    decreases a.len(),
{
    if a.len() > 0 {
        assert(assembly::same_names(a[0], b[0]));
        let ta = a.drop_first();
        let tb = b.drop_first();
        assert forall|i: int| #![trigger ta[i]] #![trigger tb[i]] 0 <= i < ta.len() implies
            assembly::same_names(ta[i], tb[i]) by {
            assert(ta[i] == a[i + 1]);
            assert(tb[i] == b[i + 1]);
        }
        lemma_same_fault(ta, tb);
    }
}

/// Closing the shared frame changes neither whether the index can be written nor
/// what the entries say of what was added.
proof fn lemma_closed_fault(w: Writer, last: Body)
    requires
        w.wf(),
        assembly::ends_at(w.key(), w.body(), w.block(), last),
    ensures
        index::index_write(last.entries).fault == index::index_write(w.listed()).fault,
        assembly::accounts(last.entries) == assembly::accounts(w.listed()),
{
    if let Some(block) = w.block() {
        let (payload, stored) = choose|payload: Seq<u8>, stored: Seq<u8>| #[trigger]
            assembly::is_closing(w.key(), w.body(), block, last, payload, stored);
        lemma_same_fault(last.entries, w.listed());
        lemma_same_places(w.listed(), last.entries);
    }
}

/// An entry that is no file leaves the frames where they are.
proof fn lemma_tiled_pushed(entries: Seq<EntryView>, e: EntryView, start: nat)
    requires
        archive::tiled(entries, start),
        e.kind == EntryKind::File ==> {
            &&& e.frame_offset == archive::frames_end(entries, start)
            &&& e.frame_compressed_size > 0
            &&& e.block_offset == 0
        },
    ensures
        archive::tiled(entries.push(e), start),
        archive::frames_end(entries.push(e), start) == archive::frames_end(entries, start)
            + if e.kind == EntryKind::File {
            e.frame_compressed_size as nat
        } else {
            0
        },
{
    let is = entries.push(e);
    assert(is.drop_last() =~= entries);
    assert forall|i: int| #![trigger is[i]]
        0 <= i < is.len() && is[i].kind == EntryKind::File implies {
        &&& is[i].frame_offset == archive::frames_end(is.take(i), start)
        &&& is[i].frame_compressed_size > 0
        &&& is[i].block_offset == 0
    } by {
        assert(is.take(i) =~= entries.take(i));
        if i < entries.len() {
            assert(is[i] == entries[i]);
        } else {
            assert(entries.take(i) =~= entries);
        }
    }
}

/// An entry that is no file keeps a writer sound.
proof fn lemma_sound_pushed(before: Writer, after: Writer, e: EntryView)
    requires
        before.sound(),
        e.kind != EntryKind::File,
        after.same_setup(before),
        after.stream() == before.stream(),
        after.block() == before.block(),
        after.file() == before.file(),
        after.listed() == before.listed().push(e),
        after.contents() == before.contents().push(Seq::empty()),
        before.listed().len() == before.contents().len(),
    ensures
        after.sound(),
{
    let was = before.listed();
    let is = after.listed();
    assert forall|i: int| 0 <= i < was.len() && #[trigger] before.waits(i) implies after.waits(
        i,
    ) by {
        assert(is[i] == was[i]);
    }
    assert forall|i: int|
        #![trigger after.listed()[i]]
        0 <= i < is.len() && is[i].kind == EntryKind::File implies archive::holds(
        after.stream(),
        after.key(),
        is[i],
        after.contents()[i],
    ) || after.waits(i) by {
        assert(is[i] == was[i]);
        if before.waits(i) {
            assert(after.waits(i));
        }
    }
    if let Some(block) = after.block() {
        assert forall|a: int| #![trigger block.pending[a]] 0 <= a < block.pending.len() implies {
            &&& block.pending[a] < is.len()
            &&& is[block.pending[a] as int].kind == EntryKind::File
            &&& after.waits(block.pending[a] as int)
            &&& is[block.pending[a] as int] == was[block.pending[a] as int]
        } by {
            assert(before.waits(block.pending[a] as int));
            assert(is[block.pending[a] as int] == was[block.pending[a] as int]);
        }
    }
    assert forall|i: int| #![trigger is[i]]
        0 <= i < is.len() && is[i].kind == EntryKind::File implies i < was.len() && is[i]
        == was[i] by {}
    match before.packing() {
        WriterMode::PerFile => {
            lemma_tiled_pushed(was, e, before.head_size());
        },
        WriterMode::Solid { .. } => {},
    }
}

/// A sound writer, with no shared frame open, leads to a readable archive.
proof fn lemma_finished(w: Writer, whole: Seq<u8>, stored: Seq<u8>, footer: Footer)
    requires
        w.wf(),
        w.sound(),
        w.block() is None,
        assembly::is_finish(w.key(), w.body(), whole, stored),
        footer == (Footer {
            index_offset: w.stream().len() as u64,
            index_size: stored.len() as u64,
            index_xxh3: codec::xxh3_of(index::index_write(w.listed()).bytes),
            flags: 0,
        }),
    ensures
        archive::is_archive(whole, w.head(), w.key(), w.listed(), w.contents()),
        w.lies_right(whole, w.listed()),
{
    reveal(archive::is_archive);
    reveal(assembly::is_finish);
    let entries = w.listed();
    let end = crate::format::footer_bytes(footer);
    let more = stored + end;
    archive::lemma_footer_size(footer);
    assert(whole =~= w.stream() + more);
    lemma_head_stable(w.stream(), more);
    assert(w.stream().len() >= 32);
    assert(index::canonical(entries) =~= entries) by {
        assert forall|i: int| 0 <= i < entries.len() implies #[trigger] entries[i].canonical()
            == entries[i] by {
            assert(assembly::proper(entries[i]));
        }
    }
    archive::lemma_reads_index(w.stream(), w.key(), entries, stored, footer);
    assert forall|i: int| #![trigger entries[i]]
        0 <= i < entries.len() && entries[i].kind == EntryKind::File implies archive::holds(
        whole,
        w.key(),
        entries[i],
        w.contents()[i],
    ) by {
        assert(!w.waits(i));
        lemma_holds_stable(w.stream(), more, w.key(), entries[i], w.contents()[i]);
    }
}

/// Where nothing waits, every file lies before the end of the stream.
proof fn lemma_before_end(w: Writer, i: int)
    requires
        w.body_sound(),
        0 <= i < w.listed().len() <= usize::MAX,
        w.listed()[i].kind == EntryKind::File,
    ensures
        w.listed()[i].frame_offset <= w.stream().len(),
        w.block() is None || !w.block()->Some_0.pending.contains(i as usize)
            ==> w.listed()[i].frame_offset < w.stream().len() && archive::holds(
            w.stream(),
            w.key(),
            w.listed()[i],
            w.contents()[i],
        ),
{
    if w.waits(i) {
    } else {
        assert(archive::holds(w.stream(), w.key(), w.listed()[i], w.contents()[i]));
    }
}

/// Adding a file in a frame of its own keeps a writer sound.
proof fn lemma_sound_added(
    before: Writer,
    after: Writer,
    file: FileView,
    payload: Seq<u8>,
    stored: Seq<u8>,
)
    requires
        before.wf(),
        before.sound(),
        before.packing() == WriterMode::PerFile,
        before.file() == Some(file),
        after.same_setup(before),
        after.block() == before.block(),
        after.file() is None,
        after.wf(),
        assembly::is_adding(before.key(), before.body(), file, after.body(), payload, stored),
    ensures
        after.sound(),
{
    let was = before.listed();
    let is = after.listed();
    let n = was.len() as int;
    assert(before.block() is None);
    assert(after.stream().len() <= u64::MAX);
    assert forall|i: int| #![trigger is[i]]
        0 <= i < n && is[i].kind == EntryKind::File implies {
        &&& is[i] == was[i]
        &&& is[i].frame_offset < before.stream().len()
        &&& archive::holds(before.stream(), before.key(), was[i], before.contents()[i])
    } by {
        assert(is[i] == was[i]);
        assert(!before.waits(i));
    }
    assert forall|i: int|
        #![trigger after.listed()[i]]
        0 <= i < is.len() && is[i].kind == EntryKind::File implies archive::holds(
        after.stream(),
        after.key(),
        is[i],
        after.contents()[i],
    ) by {
        if i < n {
            lemma_holds_stable(
                before.stream(),
                stored,
                before.key(),
                was[i],
                before.contents()[i],
            );
        } else {
            assert(after.stream().subrange(
                is[i].frame_offset as int,
                is[i].frame_offset + is[i].frame_compressed_size,
            ) =~= stored);
            assert(file.seen.subrange(0, file.seen.len() as int) =~= file.seen);
        }
    }
    assert forall|i: int, j: int| #![trigger is[i], is[j]]
        0 <= i < is.len() && 0 <= j < is.len() && is[i].kind == EntryKind::File && is[j].kind
            == EntryKind::File && is[i].frame_offset
            == is[j].frame_offset implies is[i].frame_compressed_size
        == is[j].frame_compressed_size by {}
    lemma_tiled_pushed(was, is[n], before.head_size());
}

/// Adding a file to the shared frame, which then holds `laid`, keeps a writer
/// sound.
proof fn lemma_sound_entered(before: Writer, after: Writer, laid: BlockView)
    requires
        before.wf(),
        before.sound(),
        before.packing() is Solid,
        before.file() is Some,
        before.block() is Some,
        before.listed().len() <= usize::MAX,
        laid == if before.file()->Some_0.placed {
            before.block()->Some_0
        } else {
            assembly::fed_block(before.block()->Some_0, before.file()->Some_0.seen)
        },
        after.same_setup(before),
        after.file() is None,
        after.body() == assembly::entered(before.body(), laid, before.file()->Some_0),
        after.block() == Some(assembly::joined_block(laid, before.listed().len() as usize)),
    ensures
        after.sound(),
{
    let was = before.listed();
    let is = after.listed();
    let n = was.len() as int;
    let block = before.block()->Some_0;
    let now = after.block()->Some_0;
    let file = before.file()->Some_0;
    let start = file.block_offset as int;
    assert(file.own_frame is None);
    assert(now.pending[block.pending.len() as int] == n as usize);
    assert(now.pending.contains(n as usize));
    assert(is[n] == assembly::file_view(file, 0, block.frame_offset));
    assert(laid.input.subrange(start, start + file.seen.len()) =~= file.seen);
    assert(after.waits(n));
    assert forall|i: int| 0 <= i < n && #[trigger] before.waits(i) implies after.waits(i) by {
        let a = choose|a: int| 0 <= a < block.pending.len() && block.pending[a] == i as usize;
        assert(now.pending[a] == i as usize);
        assert(is[i] == was[i]);
        lemma_content_stable(was[i], block.input, file.seen);
    }
    assert forall|a: int| #![trigger now.pending[a]] 0 <= a < now.pending.len() implies {
        &&& now.pending[a] < is.len()
        &&& is[now.pending[a] as int].kind == EntryKind::File
        &&& after.waits(now.pending[a] as int)
    } by {
        if a < block.pending.len() {
            assert(now.pending[a] == block.pending[a]);
            assert(before.waits(block.pending[a] as int));
            assert(is[block.pending[a] as int] == was[block.pending[a] as int]);
        }
    }
    assert forall|i: int|
        #![trigger after.listed()[i]]
        0 <= i < is.len() && is[i].kind == EntryKind::File implies archive::holds(
        after.stream(),
        after.key(),
        is[i],
        after.contents()[i],
    ) || after.waits(i) by {
        if i < n {
            assert(is[i] == was[i]);
            if before.waits(i) {
                assert(after.waits(i));
            }
        }
    }
    assert forall|i: int, j: int| #![trigger is[i], is[j]]
        0 <= i < is.len() && 0 <= j < is.len() && is[i].kind == EntryKind::File && is[j].kind
            == EntryKind::File && is[i].frame_offset
            == is[j].frame_offset implies is[i].frame_compressed_size
        == is[j].frame_compressed_size by {
        lemma_size_at_block(before, i);
        lemma_size_at_block(before, j);
        if i < n && j < n {
            assert(is[i] == was[i] && is[j] == was[j]);
        }
    }
    lemma_entered_in_order(before, after);
}

/// Adding a file to the shared frame keeps the files in order, and the frames to
/// their target.
proof fn lemma_entered_in_order(before: Writer, after: Writer)
    requires
        before.sound(),
        before.packing() is Solid,
        before.file() is Some,
        before.file()->Some_0.own_frame is None,
        before.block() is Some,
        before.listed().len() <= usize::MAX,
        after.packing() == before.packing(),
        after.listed() == before.listed().push(
            assembly::file_view(before.file()->Some_0, 0, before.block()->Some_0.frame_offset),
        ),
    ensures
        archive::in_order(after.listed()),
        after.packed_right(),
{
    let was = before.listed();
    let is = after.listed();
    let n = was.len() as int;
    let block = before.block()->Some_0;
    let file = before.file()->Some_0;
    assert forall|i: int| #![trigger is[i]]
        0 <= i < n && is[i].kind == EntryKind::File implies {
        &&& is[i] == was[i]
        &&& is[i].frame_offset <= block.frame_offset
        &&& is[i].frame_offset == block.frame_offset ==> archive::end_of(is[i])
            <= file.block_offset
    } by {
        assert(is[i] == was[i]);
        lemma_before_end(before, i);
        lemma_block_apart(before, i);
        if is[i].frame_offset == block.frame_offset {
            let a = choose|a: int| 0 <= a < block.pending.len() && block.pending[a] == i as usize;
            assert(block.pending[a] as int == i);
        }
    }
    if let WriterMode::Solid { target_bytes } = before.packing() {
        assert(archive::within_target(was, target_bytes));
        assert(file.block_offset > 0 ==> file.block_offset + file.seen.len() <= target_bytes);
        assert(archive::within_target(is, target_bytes));
    }
}

/// A file at the place of the open shared frame waits for its size.
proof fn lemma_size_at_block(w: Writer, i: int)
    requires
        w.sound(),
        w.block() is Some,
        w.listed().len() <= usize::MAX,
    ensures
        0 <= i < w.listed().len() && w.listed()[i].kind == EntryKind::File
            && w.listed()[i].frame_offset == w.block()->Some_0.frame_offset
            ==> w.listed()[i].frame_compressed_size == 0,
{
    if 0 <= i < w.listed().len() && w.listed()[i].kind == EntryKind::File {
        lemma_block_apart(w, i);
        if w.listed()[i].frame_offset == w.block()->Some_0.frame_offset {
            let block = w.block()->Some_0;
            let a = choose|a: int| 0 <= a < block.pending.len() && block.pending[a] == i as usize;
            assert(w.waits(block.pending[a] as int));
        }
    }
}

/// The headers that a writer begins with read back.
proof fn lemma_head_reads_back(created_at: i64, encryption: Option<Encryption>)
    ensures
        ({
            let head = assembly::head_for(created_at, encryption);
            &&& reader::head_of(assembly::head_bytes(head)) == Ok::<
                (Header, Option<EncryptionHeaderView>),
                ErrorView,
            >(head)
            &&& assembly::head_bytes(head).len() == if encryption is Some {
                HEADER_SIZE + ENCRYPTION_HEADER_SIZE
            } else {
                HEADER_SIZE as int
            }
        }),
{
    let head = assembly::head_for(created_at, encryption);
    let first = crate::format::header_bytes(head.0);
    let none = Footer { index_offset: 0, index_size: 0, index_xxh3: 0, flags: 0 };
    assert(0u32 & 1u32 == 0u32) by (bit_vector);
    assert(1u32 & 1u32 == 1u32) by (bit_vector);
    match head.1 {
        Some(eh) => {
            let second = crate::format::encryption_header_bytes(eh);
            crate::format::law_sizes(head.0, eh, none);
            crate::format::law_header_round_trip(head.0, second);
            crate::format::law_encryption_header_round_trip(eh, Seq::empty());
            assert((first + second).skip(32) =~= second + Seq::empty());
        },
        None => {
            let eh = EncryptionHeaderView {
                cipher_algo: CipherAlgo::XChaCha20Poly1305,
                kdf_algo: KdfAlgo::Argon2id,
                argon2: crate::crypto::Argon2Params { m_cost_kib: 0, t_cost: 0, p_cost: 0 },
                salt: crate::format::zeros(16),
            };
            crate::format::law_sizes(head.0, eh, none);
            crate::format::law_header_round_trip(head.0, Seq::empty());
            assert(first + Seq::empty() =~= first);
        },
    }
}

/// Every entry that a writer lists has a path that may stand in an archive, and
/// a target if and only if it is a link.
pub proof fn law_listed_is_proper(w: Writer, i: int)
    requires
        w.wf(),
        0 <= i < w.listed().len(),
    ensures
        path::path_fault(w.listed()[i].path) is None,
        w.listed()[i].link_target is Some <==> w.listed()[i].kind == EntryKind::Symlink,
{
    assert(assembly::proper(w.listed()[i]));
}

/// Whatever has been written so far starts with the headers of the archive.
pub proof fn law_stream_has_head(w: Writer)
    requires
        w.wf(),
    ensures
        reader::head_of(w.stream()) == Ok::<(Header, Option<EncryptionHeaderView>), ErrorView>(
            w.head(),
        ),
{
}

} // verus!
