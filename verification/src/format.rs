//! The byte layout of an archive: header, encryption header, index, footer.

use crate::bytes;
use crate::crypto::{Argon2Params, CipherAlgo, KdfAlgo, SALT_SIZE};
use crate::error;
use crate::error::{Error, ErrorView, IoFault, Result};
use vstd::prelude::*;

pub use crate::index::{read_index, write_index, Entry};
pub use crate::path::validate_archive_path;

verus! {

/// `HGR1`: the first bytes of an archive, and its last.
pub const MAGIC: [u8; 4] = [0x48, 0x47, 0x52, 0x31];

pub const HEADER_SIZE: u64 = 32;

pub const FOOTER_SIZE: u64 = 32;

pub const ENCRYPTION_HEADER_SIZE: u64 = 40;

pub const VERSION_MAJOR: u16 = 1;

/// Minor version 1 brought encryption.
pub const VERSION_MINOR: u16 = 1;

/// The bit of [`Header::flags`] that marks an encrypted archive.
pub const FLAG_ENCRYPTED: u32 = 1;

/// `count` zero bytes.
pub open spec fn zeros(count: nat) -> Seq<u8> {
    Seq::new(count, |i: int| 0u8)
}

/// Appends `count` zero bytes.
fn put_zeros(out: &mut Vec<u8>, count: usize)
    ensures
        final(out)@ == old(out)@ + zeros(count as nat),
{
    let ghost before = out@;
    let mut done: usize = 0;
    while done < count
        invariant
            done <= count,
            out@ =~= before + zeros(done as nat),
        decreases count - done,
    {
        out.push(0);
        done = done + 1;
    }
}

/// Appends `part`.
pub(crate) fn put_bytes(out: &mut Vec<u8>, part: &[u8])
    ensures
        final(out)@ == old(out)@ + part@,
{
    out.extend_from_slice(part);
    assert(out@ =~= old(out)@ + part@);
}

/// Whether the four bytes from `at` on are the magic.
fn magic_at(data: &[u8], at: usize) -> (res: bool)
    requires
        at + 4 <= data@.len(),
    ensures
        res == (data@.subrange(at as int, at + 4) == MAGIC@),
{
    assert(data.len() == data@.len());
    let res = data[at] == MAGIC[0] && data[at + 1] == MAGIC[1] && data[at + 2] == MAGIC[2]
        && data[at + 3] == MAGIC[3];
    proof {
        let part = data@.subrange(at as int, at + 4);
        if res {
            assert(part =~= MAGIC@);
        } else {
            assert(part[0] == data@[at as int]);
            assert(part[1] == data@[at + 1]);
            assert(part[2] == data@[at + 2]);
            assert(part[3] == data@[at + 3]);
        }
    }
    res
}

/// A copy of the bytes from `start` up to `end`.
pub(crate) fn copy_range(data: &[u8], start: usize, end: usize) -> (part: Vec<u8>)
    requires
        start <= end <= data@.len(),
    ensures
        part@ == data@.subrange(start as int, end as int),
{
    vstd::slice::slice_to_vec(vstd::slice::slice_subrange(data, start, end))
}

/// Moves `r` past its first `count` bytes.
pub(crate) fn advance(r: &mut &[u8], count: usize)
    requires
        count <= old(r)@.len(),
    ensures
        final(r)@ == old(r)@.skip(count as int),
{
    let len: usize = r.len();
    *r = vstd::slice::slice_subrange(*r, count, len);
}

/// Moves `r` to its end, where the bytes end too early.
pub(crate) fn ended(r: &mut &[u8]) -> (e: Error)
    ensures
        e@ == error::eof(),
        final(r)@ == Seq::<u8>::empty(),
{
    let len: usize = r.len();
    advance(r, len);
    assert(r@ =~= Seq::empty());
    Error::Io(IoFault::UnexpectedEof)
}

/// What an entry of the index stands for.
#[derive(Debug, Clone, Copy, PartialEq, Eq, Structural)]
pub enum EntryKind {
    File,
    Dir,
    Symlink,
}

impl EntryKind {
    /// The number that stands for the kind in an index.
    pub open spec fn code_spec(self) -> u8 {
        match self {
            EntryKind::File => 0,
            EntryKind::Dir => 1,
            EntryKind::Symlink => 2,
        }
    }

    /// The kind that a number in an index stands for.
    pub open spec fn decode(b: u8) -> core::result::Result<EntryKind, ErrorView> {
        if b == 0 {
            Ok(EntryKind::File)
        } else if b == 1 {
            Ok(EntryKind::Dir)
        } else if b == 2 {
            Ok(EntryKind::Symlink)
        } else {
            Err(ErrorView::Corrupt("unknown entry kind"@))
        }
    }

    /// The number that stands for the kind in an index.
    pub fn code(self) -> (b: u8)
        ensures
            b == self.code_spec(),
    {
        match self {
            EntryKind::File => 0,
            EntryKind::Dir => 1,
            EntryKind::Symlink => 2,
        }
    }

    /// The kind that a number in an index stands for.
    pub fn from_u8(b: u8) -> (res: Result<Self>)
        ensures
            match Self::decode(b) {
                Ok(kind) => res == Ok::<Self, Error>(kind),
                Err(e) => res matches Err(x) && x@ == e,
            },
    {
        match b {
            0 => Ok(EntryKind::File),
            1 => Ok(EntryKind::Dir),
            2 => Ok(EntryKind::Symlink),
            _ => Err(Error::Corrupt("unknown entry kind")),
        }
    }
}

/// The first 32 bytes of an archive.
#[derive(Debug, Clone, Copy, PartialEq, Eq, Structural)]
pub struct Header {
    pub version_major: u16,
    pub version_minor: u16,
    pub flags: u32,
    pub created_at: i64,
}

/// The 32 bytes of a header.
pub open spec fn header_bytes(h: Header) -> Seq<u8> {
    MAGIC@ + bytes::le_bytes(h.version_major as nat, 2) + bytes::le_bytes(
        h.version_minor as nat,
        2,
    ) + bytes::le_bytes(h.flags as nat, 4) + bytes::le_bytes(bytes::i64_bits(h.created_at), 8)
        + zeros(12)
}

/// The header at the front of `s`, or the first thing wrong with it.
pub open spec fn parse_header(s: Seq<u8>) -> core::result::Result<Header, ErrorView> {
    if s.len() < 4 {
        Err(error::eof())
    } else if s.subrange(0, 4) != MAGIC@ {
        Err(ErrorView::BadMagic)
    } else if s.len() < 8 {
        Err(error::eof())
    } else if bytes::le_value(s.subrange(4, 6)) != VERSION_MAJOR {
        Err(
            ErrorView::UnsupportedVersion {
                major: bytes::le_value(s.subrange(4, 6)) as u16,
                minor: bytes::le_value(s.subrange(6, 8)) as u16,
            },
        )
    } else if s.len() < 32 {
        Err(error::eof())
    } else {
        Ok(
            Header {
                version_major: bytes::le_value(s.subrange(4, 6)) as u16,
                version_minor: bytes::le_value(s.subrange(6, 8)) as u16,
                flags: bytes::le_value(s.subrange(8, 12)) as u32,
                created_at: bytes::i64_from_bits(bytes::le_value(s.subrange(12, 20))),
            },
        )
    }
}

/// How many bytes are read of a header that has something wrong with it: up to
/// what is wrong, and all of them where they end too early.
pub open spec fn header_stop(s: Seq<u8>) -> int {
    match parse_header(s) {
        Err(ErrorView::BadMagic) => 4,
        Err(ErrorView::UnsupportedVersion { .. }) => 8,
        _ => s.len() as int,
    }
}

impl Header {
    /// The header of an archive without encryption.
    pub fn new(created_at: i64) -> (h: Self)
        ensures
            h == (Header {
                version_major: VERSION_MAJOR,
                version_minor: VERSION_MINOR,
                flags: 0,
                created_at,
            }),
    {
        Header { version_major: VERSION_MAJOR, version_minor: VERSION_MINOR, flags: 0, created_at }
    }

    /// Whether the archive behind this header is encrypted.
    pub open spec fn encrypted_spec(self) -> bool {
        self.flags & FLAG_ENCRYPTED != 0
    }

    /// Whether the archive behind this header is encrypted.
    pub fn encrypted(&self) -> (res: bool)
        ensures
            res == self.encrypted_spec(),
    {
        self.flags & FLAG_ENCRYPTED != 0
    }

    /// Appends the 32 bytes of the header.
    pub fn write_to(&self, w: &mut Vec<u8>) -> (res: Result<()>)
        ensures
            res is Ok,
            final(w)@ == old(w)@ + header_bytes(*self),
    {
        put_bytes(w, MAGIC.as_slice());
        bytes::put_u16(w, self.version_major);
        bytes::put_u16(w, self.version_minor);
        bytes::put_u32(w, self.flags);
        bytes::put_i64(w, self.created_at);
        put_zeros(w, 12);
        assert(w@ =~= old(w)@ + header_bytes(*self));
        Ok(())
    }

    /// Reads the header at the front of `r` and moves `r` behind it. Where
    /// that fails, `r` stands behind what was read.
    pub fn read_from(r: &mut &[u8]) -> (res: Result<Self>)
        ensures
            match parse_header(old(r)@) {
                Ok(h) => res == Ok::<Self, Error>(h) && final(r)@ == old(r)@.skip(32),
                Err(e) => (res matches Err(x) && x@ == e) && final(r)@ == old(r)@.skip(
                    header_stop(old(r)@),
                ),
            },
    {
        let data: &[u8] = *r;
        assert(data@.skip(data@.len() as int) =~= Seq::empty());
        if data.len() < 4 {
            return Err(ended(r));
        }
        if !magic_at(data, 0) {
            advance(r, 4);
            return Err(Error::BadMagic);
        }
        if data.len() < 8 {
            return Err(ended(r));
        }
        let version_major: u16 = bytes::get_u16(data, 4);
        let version_minor: u16 = bytes::get_u16(data, 6);
        if version_major != VERSION_MAJOR {
            advance(r, 8);
            return Err(Error::UnsupportedVersion { major: version_major, minor: version_minor });
        }
        if data.len() < 32 {
            return Err(ended(r));
        }
        let flags: u32 = bytes::get_u32(data, 8);
        let created_at: i64 = bytes::get_i64(data, 12);
        advance(r, 32);
        Ok(Header { version_major, version_minor, flags, created_at })
    }
}

/// The 40 bytes behind the header of an encrypted archive: which cipher and
/// which key derivation, with its parameters and its salt.
#[derive(Debug, Clone, Copy)]
pub struct EncryptionHeader {
    pub cipher_algo: CipherAlgo,
    pub kdf_algo: KdfAlgo,
    pub argon2: Argon2Params,
    pub salt: [u8; SALT_SIZE],
}

/// An [`EncryptionHeader`] with its salt as a sequence.
pub struct EncryptionHeaderView {
    pub cipher_algo: CipherAlgo,
    pub kdf_algo: KdfAlgo,
    pub argon2: Argon2Params,
    pub salt: Seq<u8>,
}

impl View for EncryptionHeader {
    type V = EncryptionHeaderView;

    open spec fn view(&self) -> EncryptionHeaderView {
        EncryptionHeaderView {
            cipher_algo: self.cipher_algo,
            kdf_algo: self.kdf_algo,
            argon2: self.argon2,
            salt: self.salt@,
        }
    }
}

/// The 40 bytes of an encryption header.
pub open spec fn encryption_header_bytes(eh: EncryptionHeaderView) -> Seq<u8> {
    seq![eh.cipher_algo.code_spec(), eh.kdf_algo.code_spec()] + zeros(2) + bytes::le_bytes(
        eh.argon2.m_cost_kib as nat,
        4,
    ) + bytes::le_bytes(eh.argon2.t_cost as nat, 4) + bytes::le_bytes(eh.argon2.p_cost as nat, 4)
        + eh.salt + zeros(8)
}

/// The encryption header at the front of `s`, or the first thing wrong with it.
pub open spec fn parse_encryption_header(s: Seq<u8>) -> core::result::Result<
    EncryptionHeaderView,
    ErrorView,
> {
    if s.len() < 1 {
        Err(error::eof())
    } else {
        match CipherAlgo::decode(s[0]) {
            Err(e) => Err(e),
            Ok(cipher_algo) => if s.len() < 2 {
                Err(error::eof())
            } else {
                match KdfAlgo::decode(s[1]) {
                    Err(e) => Err(e),
                    Ok(kdf_algo) => if s.len() < 40 {
                        Err(error::eof())
                    } else {
                        Ok(
                            EncryptionHeaderView {
                                cipher_algo,
                                kdf_algo,
                                argon2: Argon2Params {
                                    m_cost_kib: bytes::le_value(s.subrange(4, 8)) as u32,
                                    t_cost: bytes::le_value(s.subrange(8, 12)) as u32,
                                    p_cost: bytes::le_value(s.subrange(12, 16)) as u32,
                                },
                                salt: s.subrange(16, 32),
                            },
                        )
                    },
                }
            },
        }
    }
}

/// How many bytes are read of an encryption header that has something wrong with
/// it: up to what is wrong, and all of them where they end too early.
pub open spec fn encryption_header_stop(s: Seq<u8>) -> int {
    if parse_encryption_header(s) == Err::<EncryptionHeaderView, ErrorView>(error::eof()) {
        s.len() as int
    } else if CipherAlgo::decode(s[0]) is Err {
        1
    } else {
        2
    }
}

/// The `N` bytes from `at` on.
pub(crate) fn array_at<const N: usize>(data: &[u8], at: usize) -> (part: [u8; N])
    requires
        at + N <= data@.len(),
    ensures
        part@ == data@.subrange(at as int, at + N),
{
    assert(data.len() == data@.len());
    let mut part: [u8; N] = [0u8;N];
    let mut done: usize = 0;
    while done < N
        invariant
            done <= N,
            at + N <= data@.len(),
            data.len() == data@.len(),
            forall|i: int| 0 <= i < done ==> part@[i] == data@[at + i],
        decreases N - done,
    {
        part[done] = data[at + done];
        done = done + 1;
    }
    assert(part@ =~= data@.subrange(at as int, at + N));
    part
}

impl EncryptionHeader {
    /// Appends the 40 bytes of the encryption header.
    pub fn write_to(&self, w: &mut Vec<u8>) -> (res: Result<()>)
        ensures
            res is Ok,
            final(w)@ == old(w)@ + encryption_header_bytes(self@),
    {
        w.push(self.cipher_algo.code());
        w.push(self.kdf_algo.code());
        put_zeros(w, 2);
        bytes::put_u32(w, self.argon2.m_cost_kib);
        bytes::put_u32(w, self.argon2.t_cost);
        bytes::put_u32(w, self.argon2.p_cost);
        put_bytes(w, self.salt.as_slice());
        put_zeros(w, 8);
        assert(w@ =~= old(w)@ + encryption_header_bytes(self@));
        Ok(())
    }

    /// Reads the encryption header at the front of `r` and moves `r` behind
    /// it. Where that fails, `r` stands behind what was read.
    pub fn read_from(r: &mut &[u8]) -> (res: Result<Self>)
        ensures
            match parse_encryption_header(old(r)@) {
                Ok(eh) => (res matches Ok(x) && x@ == eh) && final(r)@ == old(r)@.skip(40),
                Err(e) => (res matches Err(x) && x@ == e) && final(r)@ == old(r)@.skip(
                    encryption_header_stop(old(r)@),
                ),
            },
    {
        let data: &[u8] = *r;
        assert(data@.skip(data@.len() as int) =~= Seq::empty());
        if data.len() < 1 {
            return Err(ended(r));
        }
        let cipher_algo = match CipherAlgo::from_u8(data[0]) {
            Ok(algo) => algo,
            Err(e) => {
                advance(r, 1);
                return Err(e);
            },
        };
        if data.len() < 2 {
            return Err(ended(r));
        }
        let kdf_algo = match KdfAlgo::from_u8(data[1]) {
            Ok(algo) => algo,
            Err(e) => {
                advance(r, 2);
                return Err(e);
            },
        };
        if data.len() < 40 {
            return Err(ended(r));
        }
        let argon2 = Argon2Params {
            m_cost_kib: bytes::get_u32(data, 4),
            t_cost: bytes::get_u32(data, 8),
            p_cost: bytes::get_u32(data, 12),
        };
        let salt = array_at::<SALT_SIZE>(data, 16);
        advance(r, 40);
        Ok(EncryptionHeader { cipher_algo, kdf_algo, argon2, salt })
    }
}

/// The last 32 bytes of an archive: where the index is, and its checksum.
#[derive(Debug, Clone, Copy, PartialEq, Eq, Structural)]
pub struct Footer {
    pub index_offset: u64,
    pub index_size: u64,
    pub index_xxh3: u64,
    pub flags: u32,
}

/// The 32 bytes of a footer.
pub open spec fn footer_bytes(f: Footer) -> Seq<u8> {
    bytes::le_bytes(f.index_offset as nat, 8) + bytes::le_bytes(f.index_size as nat, 8)
        + bytes::le_bytes(f.index_xxh3 as nat, 8) + bytes::le_bytes(f.flags as nat, 4) + MAGIC@
}

/// The footer at the front of `s`, or the first thing wrong with it.
pub open spec fn parse_footer(s: Seq<u8>) -> core::result::Result<Footer, ErrorView> {
    if s.len() < 32 {
        Err(error::eof())
    } else if s.subrange(28, 32) != MAGIC@ {
        Err(ErrorView::BadMagic)
    } else {
        Ok(
            Footer {
                index_offset: bytes::le_value(s.subrange(0, 8)) as u64,
                index_size: bytes::le_value(s.subrange(8, 16)) as u64,
                index_xxh3: bytes::le_value(s.subrange(16, 24)) as u64,
                flags: bytes::le_value(s.subrange(24, 28)) as u32,
            },
        )
    }
}

impl Footer {
    /// Appends the 32 bytes of the footer.
    pub fn write_to(&self, w: &mut Vec<u8>) -> (res: Result<()>)
        ensures
            res is Ok,
            final(w)@ == old(w)@ + footer_bytes(*self),
    {
        bytes::put_u64(w, self.index_offset);
        bytes::put_u64(w, self.index_size);
        bytes::put_u64(w, self.index_xxh3);
        bytes::put_u32(w, self.flags);
        put_bytes(w, MAGIC.as_slice());
        assert(w@ =~= old(w)@ + footer_bytes(*self));
        Ok(())
    }

    /// Reads the footer at the front of `r` and moves `r` behind it. Where
    /// that fails, `r` stands behind what was read: a whole footer, or all of
    /// the bytes where they end too early.
    pub fn read_from(r: &mut &[u8]) -> (res: Result<Self>)
        ensures
            match parse_footer(old(r)@) {
                Ok(f) => res == Ok::<Self, Error>(f) && final(r)@ == old(r)@.skip(32),
                Err(e) => (res matches Err(x) && x@ == e) && final(r)@ == if old(r)@.len() < 32 {
                    Seq::empty()
                } else {
                    old(r)@.skip(32)
                },
            },
    {
        let data: &[u8] = *r;
        if data.len() < 32 {
            return Err(ended(r));
        }
        if !magic_at(data, 28) {
            advance(r, 32);
            return Err(Error::BadMagic);
        }
        let index_offset: u64 = bytes::get_u64(data, 0);
        let index_size: u64 = bytes::get_u64(data, 8);
        let index_xxh3: u64 = bytes::get_u64(data, 16);
        let flags: u32 = bytes::get_u32(data, 24);
        advance(r, 32);
        Ok(Footer { index_offset, index_size, index_xxh3, flags })
    }
}

/// A header occupies [`HEADER_SIZE`] bytes, an encryption header
/// [`ENCRYPTION_HEADER_SIZE`] and a footer [`FOOTER_SIZE`].
pub proof fn law_sizes(h: Header, eh: EncryptionHeaderView, f: Footer)
    requires
        eh.salt.len() == SALT_SIZE,
    ensures
        header_bytes(h).len() == HEADER_SIZE,
        encryption_header_bytes(eh).len() == ENCRYPTION_HEADER_SIZE,
        footer_bytes(f).len() == FOOTER_SIZE,
{
    bytes::lemma_le_bytes_len(h.version_major as nat, 2);
    bytes::lemma_le_bytes_len(h.version_minor as nat, 2);
    bytes::lemma_le_bytes_len(h.flags as nat, 4);
    bytes::lemma_le_bytes_len(bytes::i64_bits(h.created_at), 8);
    bytes::lemma_le_bytes_len(eh.argon2.m_cost_kib as nat, 4);
    bytes::lemma_le_bytes_len(eh.argon2.t_cost as nat, 4);
    bytes::lemma_le_bytes_len(eh.argon2.p_cost as nat, 4);
    bytes::lemma_le_bytes_len(f.index_offset as nat, 8);
    bytes::lemma_le_bytes_len(f.index_size as nat, 8);
    bytes::lemma_le_bytes_len(f.index_xxh3 as nat, 8);
    bytes::lemma_le_bytes_len(f.flags as nat, 4);
}

/// Reading a written header gives the header back, whatever follows it; one of
/// another major version is refused, with its version.
pub proof fn law_header_round_trip(h: Header, rest: Seq<u8>)
    ensures
        parse_header(header_bytes(h) + rest) == if h.version_major == VERSION_MAJOR {
            Ok::<Header, ErrorView>(h)
        } else {
            Err(
                ErrorView::UnsupportedVersion { major: h.version_major, minor: h.version_minor },
            )
        },
{
    let s = header_bytes(h) + rest;
    let major = bytes::le_bytes(h.version_major as nat, 2);
    let minor = bytes::le_bytes(h.version_minor as nat, 2);
    let flags = bytes::le_bytes(h.flags as nat, 4);
    let created = bytes::le_bytes(bytes::i64_bits(h.created_at), 8);
    bytes::lemma_le_limits();
    bytes::lemma_le_bytes_len(h.version_major as nat, 2);
    bytes::lemma_le_bytes_len(h.version_minor as nat, 2);
    bytes::lemma_le_bytes_len(h.flags as nat, 4);
    bytes::lemma_le_bytes_len(bytes::i64_bits(h.created_at), 8);
    bytes::lemma_i64_bits(h.created_at);
    bytes::lemma_le_value_of_bytes(h.version_major as nat, 2);
    bytes::lemma_le_value_of_bytes(h.version_minor as nat, 2);
    bytes::lemma_le_value_of_bytes(h.flags as nat, 4);
    bytes::lemma_le_value_of_bytes(bytes::i64_bits(h.created_at), 8);
    assert(s.subrange(0, 4) =~= MAGIC@);
    assert(s.subrange(4, 6) =~= major);
    assert(s.subrange(6, 8) =~= minor);
    assert(s.subrange(8, 12) =~= flags);
    assert(s.subrange(12, 20) =~= created);
}

/// Reading a written encryption header gives it back, whatever follows it.
pub proof fn law_encryption_header_round_trip(eh: EncryptionHeaderView, rest: Seq<u8>)
    requires
        eh.salt.len() == SALT_SIZE,
    ensures
        parse_encryption_header(encryption_header_bytes(eh) + rest) == Ok::<
            EncryptionHeaderView,
            ErrorView,
        >(eh),
{
    let s = encryption_header_bytes(eh) + rest;
    bytes::lemma_le_limits();
    bytes::lemma_le_bytes_len(eh.argon2.m_cost_kib as nat, 4);
    bytes::lemma_le_bytes_len(eh.argon2.t_cost as nat, 4);
    bytes::lemma_le_bytes_len(eh.argon2.p_cost as nat, 4);
    bytes::lemma_le_value_of_bytes(eh.argon2.m_cost_kib as nat, 4);
    bytes::lemma_le_value_of_bytes(eh.argon2.t_cost as nat, 4);
    bytes::lemma_le_value_of_bytes(eh.argon2.p_cost as nat, 4);
    assert(s[0] == eh.cipher_algo.code_spec());
    assert(s[1] == eh.kdf_algo.code_spec());
    assert(s.subrange(4, 8) =~= bytes::le_bytes(eh.argon2.m_cost_kib as nat, 4));
    assert(s.subrange(8, 12) =~= bytes::le_bytes(eh.argon2.t_cost as nat, 4));
    assert(s.subrange(12, 16) =~= bytes::le_bytes(eh.argon2.p_cost as nat, 4));
    assert(s.subrange(16, 32) =~= eh.salt);
}

/// Reading a written footer gives the footer back, whatever follows it.
pub proof fn law_footer_round_trip(f: Footer, rest: Seq<u8>)
    ensures
        parse_footer(footer_bytes(f) + rest) == Ok::<Footer, ErrorView>(f),
{
    let s = footer_bytes(f) + rest;
    bytes::lemma_le_limits();
    bytes::lemma_le_bytes_len(f.index_offset as nat, 8);
    bytes::lemma_le_bytes_len(f.index_size as nat, 8);
    bytes::lemma_le_bytes_len(f.index_xxh3 as nat, 8);
    bytes::lemma_le_bytes_len(f.flags as nat, 4);
    bytes::lemma_le_value_of_bytes(f.index_offset as nat, 8);
    bytes::lemma_le_value_of_bytes(f.index_size as nat, 8);
    bytes::lemma_le_value_of_bytes(f.index_xxh3 as nat, 8);
    bytes::lemma_le_value_of_bytes(f.flags as nat, 4);
    assert(s.subrange(0, 8) =~= bytes::le_bytes(f.index_offset as nat, 8));
    assert(s.subrange(8, 16) =~= bytes::le_bytes(f.index_size as nat, 8));
    assert(s.subrange(16, 24) =~= bytes::le_bytes(f.index_xxh3 as nat, 8));
    assert(s.subrange(24, 28) =~= bytes::le_bytes(f.flags as nat, 4));
    assert(s.subrange(28, 32) =~= MAGIC@);
}

/// Whether the four bytes at `at` are the mark of the format.
pub open spec fn marked(s: Seq<u8>, at: int) -> bool {
    &&& at + 4 <= s.len()
    &&& s[at] == 0x48
    &&& s[at + 1] == 0x47
    &&& s[at + 2] == 0x52
    &&& s[at + 3] == 0x31
}

/// The 16-bit number at `at`.
pub open spec fn u16_at(s: Seq<u8>, at: int) -> int {
    s[at] + 0x100 * s[at + 1]
}

/// The 32-bit number at `at`.
pub open spec fn u32_at(s: Seq<u8>, at: int) -> int {
    u16_at(s, at) + 0x1_0000 * u16_at(s, at + 2)
}

/// The 64-bit number at `at`.
pub open spec fn u64_at(s: Seq<u8>, at: int) -> int {
    u32_at(s, at) + 0x1_0000_0000 * u32_at(s, at + 4)
}

/// Whether the signed number `value` stands at `at`, in two's complement.
pub open spec fn i64_stands(s: Seq<u8>, at: int, value: i64) -> bool {
    u64_at(s, at) == if value >= 0 {
        value as int
    } else {
        value + 0x1_0000_0000_0000_0000
    }
}

/// Numbers that were written stand where they were written.
pub(crate) proof fn lemma_numbers_at(s: Seq<u8>, at: int)
    requires
        0 <= at,
    ensures
        at + 2 <= s.len() ==> bytes::le_value(s.subrange(at, at + 2)) == u16_at(s, at),
        at + 4 <= s.len() ==> bytes::le_value(s.subrange(at, at + 4)) == u32_at(s, at),
        at + 8 <= s.len() ==> bytes::le_value(s.subrange(at, at + 8)) == u64_at(s, at),
        at + 8 <= s.len() ==> 0 <= u64_at(s, at) < 0x1_0000_0000_0000_0000,
        at + 4 <= s.len() ==> 0 <= u32_at(s, at) < 0x1_0000_0000,
        at + 2 <= s.len() ==> 0 <= u16_at(s, at) < 0x1_0000,
{
    if at + 2 <= s.len() {
        bytes::lemma_value_of_two(s.subrange(at, at + 2));
    }
    if at + 4 <= s.len() {
        bytes::lemma_value_of_four(s.subrange(at, at + 4));
    }
    if at + 8 <= s.len() {
        bytes::lemma_value_of_eight(s.subrange(at, at + 8));
    }
}

/// The mark of the format, byte by byte.
proof fn lemma_marked(s: Seq<u8>, at: int)
    requires
        0 <= at,
        at + 4 <= s.len(),
    ensures
        s.subrange(at, at + 4) == MAGIC@ <==> marked(s, at),
{
    let part = s.subrange(at, at + 4);
    if marked(s, at) {
        assert(part =~= MAGIC@);
    } else if part == MAGIC@ {
        assert(part[0] == s[at] && part[1] == s[at + 1] && part[2] == s[at + 2] && part[3] == s[at
            + 3]);
    }
}

/// Whether `s` holds the 32 bytes of a header at its front: the mark, the
/// version, the flags and the time.
pub open spec fn header_stands(s: Seq<u8>, h: Header) -> bool {
    &&& s.len() >= 32
    &&& marked(s, 0)
    &&& u16_at(s, 4) == h.version_major
    &&& u16_at(s, 6) == h.version_minor
    &&& u32_at(s, 8) == h.flags
    &&& i64_stands(s, 12, h.created_at)
}

/// A header that is written stands in 32 bytes behind what was there, with
/// nothing but zeros behind its fields.
pub proof fn law_header_is_written(h: Header)
    ensures
        forall|w: &mut Vec<u8>, res: Result<()>| #[trigger]
            call_ensures(Header::write_to, (&h, w), res) ==> {
                let added = final(w)@.skip(w@.len() as int);
                &&& res is Ok
                &&& final(w)@.len() == w@.len() + 32
                &&& final(w)@.take(w@.len() as int) == w@
                &&& header_stands(added, h)
                &&& forall|i: int| 20 <= i < 32 ==> added[i] == 0
            },
{
    let s = header_bytes(h);
    law_header_round_trip(h, Seq::empty());
    lemma_header_stands(h);
    assert forall|w: &mut Vec<u8>, res: Result<()>| #[trigger]
        call_ensures(Header::write_to, (&h, w), res) implies {
        let added = final(w)@.skip(w@.len() as int);
        &&& res is Ok
        &&& final(w)@.len() == w@.len() + 32
        &&& final(w)@.take(w@.len() as int) == w@
        &&& header_stands(added, h)
        &&& forall|i: int| 20 <= i < 32 ==> added[i] == 0
    } by {
        assert(final(w)@ == w@ + s);
        assert(final(w)@.skip(w@.len() as int) =~= s);
        assert(final(w)@.take(w@.len() as int) =~= w@);
    }
}

/// A number that was written at `at` stands there.
pub(crate) proof fn lemma_stands(s: Seq<u8>, at: int, value: nat, width: nat)
    requires
        0 <= at,
        at + width <= s.len(),
        value < bytes::le_limit(width),
        s.subrange(at, at + width) =~= bytes::le_bytes(value, width),
    ensures
        width == 2 ==> u16_at(s, at) == value,
        width == 4 ==> u32_at(s, at) == value,
        width == 8 ==> u64_at(s, at) == value,
{
    bytes::lemma_le_value_of_bytes(value, width);
    lemma_numbers_at(s, at);
}

/// The bytes of a header.
proof fn lemma_header_stands(h: Header)
    ensures
        header_bytes(h).len() == 32,
        header_stands(header_bytes(h), h),
        forall|i: int| 20 <= i < 32 ==> header_bytes(h)[i] == 0,
{
    let s = header_bytes(h);
    bytes::lemma_le_limits();
    bytes::lemma_le_bytes_len(h.version_major as nat, 2);
    bytes::lemma_le_bytes_len(h.version_minor as nat, 2);
    bytes::lemma_le_bytes_len(h.flags as nat, 4);
    bytes::lemma_le_bytes_len(bytes::i64_bits(h.created_at), 8);
    bytes::lemma_i64_bits(h.created_at);
    lemma_stands(s, 4, h.version_major as nat, 2);
    lemma_stands(s, 6, h.version_minor as nat, 2);
    lemma_stands(s, 8, h.flags as nat, 4);
    lemma_stands(s, 12, bytes::i64_bits(h.created_at), 8);
    assert(s.subrange(0, 4) =~= MAGIC@);
    lemma_marked(s, 0);
}

/// A header is read exactly from 32 bytes that start with the mark and name the
/// first major version, and it is the one that stands there. Everything else is
/// refused for what is wrong first.
pub proof fn law_header_is_read()
    ensures
        forall|r: &mut &[u8], res: Result<Header>| #[trigger]
            call_ensures(Header::read_from, (r,), res) ==> {
                let s = r@;
                &&& res is Ok <==> s.len() >= 32 && marked(s, 0) && u16_at(s, 4) == 1
                &&& res matches Ok(h) ==> header_stands(s, h) && final(r)@ == s.skip(32)
                &&& s.len() >= 4 && !marked(s, 0) ==> (res matches Err(e) && e@ is BadMagic)
                &&& s.len() >= 8 && marked(s, 0) && u16_at(s, 4) != 1 ==> (res matches Err(e) && e@
                    == (ErrorView::UnsupportedVersion {
                    major: u16_at(s, 4) as u16,
                    minor: u16_at(s, 6) as u16,
                }))
                &&& (s.len() < 4 || marked(s, 0) && (s.len() < 8 || u16_at(s, 4) == 1 && s.len()
                    < 32)) ==> (res matches Err(e) && e@ == error::eof()) && final(r)@.len() == 0
                &&& s.len() >= 4 && !marked(s, 0) ==> final(r)@ == s.skip(4)
                &&& s.len() >= 8 && marked(s, 0) && u16_at(s, 4) != 1 ==> final(r)@ == s.skip(8)
            },
{
    assert forall|r: &mut &[u8], res: Result<Header>| #[trigger]
        call_ensures(Header::read_from, (r,), res) implies {
        let s = r@;
        &&& res is Ok <==> s.len() >= 32 && marked(s, 0) && u16_at(s, 4) == 1
        &&& res matches Ok(h) ==> header_stands(s, h) && final(r)@ == s.skip(32)
        &&& s.len() >= 4 && !marked(s, 0) ==> (res matches Err(e) && e@ is BadMagic)
        &&& s.len() >= 8 && marked(s, 0) && u16_at(s, 4) != 1 ==> (res matches Err(e) && e@ == (
        ErrorView::UnsupportedVersion {
            major: u16_at(s, 4) as u16,
            minor: u16_at(s, 6) as u16,
        }))
        &&& (s.len() < 4 || marked(s, 0) && (s.len() < 8 || u16_at(s, 4) == 1 && s.len() < 32))
            ==> (res matches Err(e) && e@ == error::eof()) && final(r)@.len() == 0
        &&& s.len() >= 4 && !marked(s, 0) ==> final(r)@ == s.skip(4)
        &&& s.len() >= 8 && marked(s, 0) && u16_at(s, 4) != 1 ==> final(r)@ == s.skip(8)
    } by {
        let s = r@;
        if s.len() >= 4 {
            lemma_marked(s, 0);
        }
        lemma_numbers_at(s, 4);
        lemma_numbers_at(s, 6);
        lemma_numbers_at(s, 8);
        lemma_numbers_at(s, 12);
    }
}

/// Whether `s` holds the 40 bytes of an encryption header at its front.
pub open spec fn encryption_header_stands(s: Seq<u8>, eh: EncryptionHeader) -> bool {
    &&& s.len() >= 40
    &&& s[0] == 1 && eh.cipher_algo == CipherAlgo::XChaCha20Poly1305
    &&& s[1] == 1 && eh.kdf_algo == KdfAlgo::Argon2id
    &&& u32_at(s, 4) == eh.argon2.m_cost_kib
    &&& u32_at(s, 8) == eh.argon2.t_cost
    &&& u32_at(s, 12) == eh.argon2.p_cost
    &&& s.subrange(16, 32) == eh.salt@
}

/// An encryption header that is written stands in 40 bytes behind what was
/// there.
pub proof fn law_encryption_header_is_written(eh: EncryptionHeader)
    ensures
        forall|w: &mut Vec<u8>, res: Result<()>| #[trigger]
            call_ensures(EncryptionHeader::write_to, (&eh, w), res) ==> {
                let added = final(w)@.skip(w@.len() as int);
                &&& res is Ok
                &&& final(w)@.len() == w@.len() + 40
                &&& final(w)@.take(w@.len() as int) == w@
                &&& encryption_header_stands(added, eh)
                &&& added[2] == 0 && added[3] == 0
                &&& forall|i: int| 32 <= i < 40 ==> added[i] == 0
            },
{
    let s = encryption_header_bytes(eh@);
    assert(eh.salt@.len() == 16);
    bytes::lemma_le_limits();
    bytes::lemma_le_bytes_len(eh.argon2.m_cost_kib as nat, 4);
    bytes::lemma_le_bytes_len(eh.argon2.t_cost as nat, 4);
    bytes::lemma_le_bytes_len(eh.argon2.p_cost as nat, 4);
    lemma_stands(s, 4, eh.argon2.m_cost_kib as nat, 4);
    lemma_stands(s, 8, eh.argon2.t_cost as nat, 4);
    lemma_stands(s, 12, eh.argon2.p_cost as nat, 4);
    assert(s.len() == 40);
    assert(s.subrange(16, 32) =~= eh.salt@);
    assert(encryption_header_stands(s, eh));
    assert forall|w: &mut Vec<u8>, res: Result<()>| #[trigger]
        call_ensures(EncryptionHeader::write_to, (&eh, w), res) implies {
        let added = final(w)@.skip(w@.len() as int);
        &&& res is Ok
        &&& final(w)@.len() == w@.len() + 40
        &&& final(w)@.take(w@.len() as int) == w@
        &&& encryption_header_stands(added, eh)
        &&& added[2] == 0 && added[3] == 0
        &&& forall|i: int| 32 <= i < 40 ==> added[i] == 0
    } by {
        assert(final(w)@ == w@ + s);
        assert(final(w)@.skip(w@.len() as int) =~= s);
        assert(final(w)@.take(w@.len() as int) =~= w@);
    }
}

/// An encryption header is read exactly from 40 bytes that name the one cipher
/// and the one derivation there are, and it is the one that stands there.
pub proof fn law_encryption_header_is_read()
    ensures
        forall|r: &mut &[u8], res: Result<EncryptionHeader>| #[trigger]
            call_ensures(EncryptionHeader::read_from, (r,), res) ==> {
                let s = r@;
                &&& res is Ok <==> s.len() >= 40 && s[0] == 1 && s[1] == 1
                &&& res matches Ok(eh) ==> encryption_header_stands(s, eh) && final(r)@ == s.skip(
                    40,
                )
                &&& s.len() >= 1 && s[0] != 1 ==> (res matches Err(e) && e@ == ErrorView::Corrupt(
                    "unknown cipher algorithm"@,
                ))
                &&& s.len() >= 2 && s[0] == 1 && s[1] != 1 ==> (res matches Err(e) && e@
                    == ErrorView::Corrupt("unknown KDF algorithm"@))
                &&& (s.len() == 0 || s[0] == 1 && (s.len() < 2 || s[1] == 1 && s.len() < 40)) ==> (
                res matches Err(e) && e@ == error::eof()) && final(r)@.len() == 0
                &&& s.len() >= 1 && s[0] != 1 ==> final(r)@ == s.skip(1)
                &&& s.len() >= 2 && s[0] == 1 && s[1] != 1 ==> final(r)@ == s.skip(2)
            },
{
    assert forall|r: &mut &[u8], res: Result<EncryptionHeader>| #[trigger]
        call_ensures(EncryptionHeader::read_from, (r,), res) implies {
        let s = r@;
        &&& res is Ok <==> s.len() >= 40 && s[0] == 1 && s[1] == 1
        &&& res matches Ok(eh) ==> encryption_header_stands(s, eh) && final(r)@ == s.skip(40)
        &&& s.len() >= 1 && s[0] != 1 ==> (res matches Err(e) && e@ == ErrorView::Corrupt(
            "unknown cipher algorithm"@,
        ))
        &&& s.len() >= 2 && s[0] == 1 && s[1] != 1 ==> (res matches Err(e) && e@
            == ErrorView::Corrupt("unknown KDF algorithm"@))
        &&& (s.len() == 0 || s[0] == 1 && (s.len() < 2 || s[1] == 1 && s.len() < 40)) ==> (
        res matches Err(e) && e@ == error::eof()) && final(r)@.len() == 0
        &&& s.len() >= 1 && s[0] != 1 ==> final(r)@ == s.skip(1)
        &&& s.len() >= 2 && s[0] == 1 && s[1] != 1 ==> final(r)@ == s.skip(2)
    } by {
        let s = r@;
        lemma_numbers_at(s, 4);
        lemma_numbers_at(s, 8);
        lemma_numbers_at(s, 12);
    }
}

/// Whether `s` holds the 32 bytes of a footer at its front.
pub open spec fn footer_stands(s: Seq<u8>, f: Footer) -> bool {
    &&& s.len() >= 32
    &&& u64_at(s, 0) == f.index_offset
    &&& u64_at(s, 8) == f.index_size
    &&& u64_at(s, 16) == f.index_xxh3
    &&& u32_at(s, 24) == f.flags
    &&& marked(s, 28)
}

/// A footer that is written stands in 32 bytes behind what was there.
pub proof fn law_footer_is_written(f: Footer)
    ensures
        forall|w: &mut Vec<u8>, res: Result<()>| #[trigger]
            call_ensures(Footer::write_to, (&f, w), res) ==> {
                &&& res is Ok
                &&& final(w)@.len() == w@.len() + 32
                &&& final(w)@.take(w@.len() as int) == w@
                &&& footer_stands(final(w)@.skip(w@.len() as int), f)
            },
{
    let s = footer_bytes(f);
    lemma_footer_stands(f);
    assert forall|w: &mut Vec<u8>, res: Result<()>| #[trigger]
        call_ensures(Footer::write_to, (&f, w), res) implies {
        &&& res is Ok
        &&& final(w)@.len() == w@.len() + 32
        &&& final(w)@.take(w@.len() as int) == w@
        &&& footer_stands(final(w)@.skip(w@.len() as int), f)
    } by {
        assert(final(w)@ == w@ + s);
        assert(final(w)@.skip(w@.len() as int) =~= s);
        assert(final(w)@.take(w@.len() as int) =~= w@);
    }
}

/// The bytes of a footer.
pub(crate) proof fn lemma_footer_stands(f: Footer)
    ensures
        footer_bytes(f).len() == 32,
        footer_stands(footer_bytes(f), f),
{
    let s = footer_bytes(f);
    bytes::lemma_le_limits();
    bytes::lemma_le_bytes_len(f.index_offset as nat, 8);
    bytes::lemma_le_bytes_len(f.index_size as nat, 8);
    bytes::lemma_le_bytes_len(f.index_xxh3 as nat, 8);
    bytes::lemma_le_bytes_len(f.flags as nat, 4);
    lemma_stands(s, 0, f.index_offset as nat, 8);
    lemma_stands(s, 8, f.index_size as nat, 8);
    lemma_stands(s, 16, f.index_xxh3 as nat, 8);
    lemma_stands(s, 24, f.flags as nat, 4);
    assert(s.subrange(28, 32) =~= MAGIC@);
    lemma_marked(s, 28);
}

/// A footer is read exactly from 32 bytes that end with the mark, and it is the
/// one that stands there.
pub proof fn law_footer_is_read()
    ensures
        forall|r: &mut &[u8], res: Result<Footer>| #[trigger]
            call_ensures(Footer::read_from, (r,), res) ==> {
                let s = r@;
                &&& res is Ok <==> s.len() >= 32 && marked(s, 28)
                &&& res matches Ok(f) ==> footer_stands(s, f) && final(r)@ == s.skip(32)
                &&& s.len() >= 32 && !marked(s, 28) ==> (res matches Err(e) && e@ is BadMagic)
                &&& s.len() < 32 ==> (res matches Err(e) && e@ == error::eof()) && final(r)@.len() == 0
                &&& s.len() >= 32 ==> final(r)@ == s.skip(32)
            },
{
    assert forall|r: &mut &[u8], res: Result<Footer>| #[trigger]
        call_ensures(Footer::read_from, (r,), res) implies {
        let s = r@;
        &&& res is Ok <==> s.len() >= 32 && marked(s, 28)
        &&& res matches Ok(f) ==> footer_stands(s, f) && final(r)@ == s.skip(32)
        &&& s.len() >= 32 && !marked(s, 28) ==> (res matches Err(e) && e@ is BadMagic)
        &&& s.len() < 32 ==> (res matches Err(e) && e@ == error::eof()) && final(r)@.len() == 0
        &&& s.len() >= 32 ==> final(r)@ == s.skip(32)
    } by {
        let s = r@;
        if s.len() >= 32 {
            lemma_marked(s, 28);
        }
        lemma_numbers_at(s, 0);
        lemma_numbers_at(s, 8);
        lemma_numbers_at(s, 16);
        lemma_numbers_at(s, 24);
    }
}

/// The three kinds of entries have the numbers 0, 1 and 2, and no other number
/// stands for one.
pub proof fn law_kind_numbers(kind: EntryKind, number: u8, b: u8, res: Result<EntryKind>)
    requires
        call_ensures(EntryKind::code, (kind,), number),
        call_ensures(EntryKind::from_u8, (b,), res),
    ensures
        number == match kind {
            EntryKind::File => 0u8,
            EntryKind::Dir => 1u8,
            EntryKind::Symlink => 2u8,
        },
        res == Ok::<EntryKind, Error>(kind) <==> b == number,
        res is Err <==> b > 2,
        res matches Err(e) ==> e@ == ErrorView::Corrupt("unknown entry kind"@),
{
}

/// An archive counts as encrypted exactly if the lowest bit of its flags is set.
pub proof fn law_encrypted_flag(h: Header, res: bool)
    requires
        call_ensures(Header::encrypted, (&h,), res),
    ensures
        res <==> h.flags % 2 == 1,
{
    let flags = h.flags;
    assert(flags & 1 != 0 <==> flags % 2 == 1) by (bit_vector);
}

/// A new header has the version of this library, no flags, and the time that was
/// given.
pub proof fn law_new_header(created_at: i64, h: Header)
    requires
        call_ensures(Header::new, (created_at,), h),
    ensures
        h.version_major == 1,
        h.version_minor == 1,
        h.flags == 0,
        h.created_at == created_at,
{
}

/// What stands in the first bytes of an archive, in numbers.
pub(crate) proof fn lemma_head_numbers(s: Seq<u8>)
    ensures
        s.len() >= 4 ==> (s.subrange(0, 4) == MAGIC@ <==> marked(s, 0)),
        parse_header(s) matches Ok(h) ==> header_stands(s, h) && h.version_major == 1,
        s.len() >= 32 && marked(s, 0) && u16_at(s, 4) == 1 ==> (parse_header(s) matches Ok(h)
            && h.flags == u32_at(s, 8)),
        s.len() >= 40 ==> (parse_encryption_header(s) is Ok <==> s[0] == 1 && s[1] == 1),
        s.len() >= 32 ==> ({
            let t = s.skip(32);
            parse_encryption_header(t) matches Ok(eh) ==> {
                &&& t.len() >= 40
                &&& t[0] == 1 && t[1] == 1
                &&& u32_at(t, 4) == eh.argon2.m_cost_kib
                &&& u32_at(t, 8) == eh.argon2.t_cost
                &&& u32_at(t, 12) == eh.argon2.p_cost
                &&& t.subrange(16, 32) == eh.salt
            }
        }),
        s.len() >= 32 ==> u32_at(s, 8) % 2 == s[8] % 2,
{
    if s.len() >= 4 {
        lemma_marked(s, 0);
    }
    lemma_numbers_at(s, 4);
    lemma_numbers_at(s, 6);
    lemma_numbers_at(s, 8);
    lemma_numbers_at(s, 12);
    if s.len() >= 32 {
        let t = s.skip(32);
        lemma_numbers_at(t, 4);
        lemma_numbers_at(t, 8);
        lemma_numbers_at(t, 12);
    }
}

/// What stands in the last bytes of an archive, in numbers.
pub(crate) proof fn lemma_footer_numbers(s: Seq<u8>)
    ensures
        parse_footer(s) is Ok <==> s.len() >= 32 && marked(s, 28),
        parse_footer(s) matches Ok(f) ==> footer_stands(s, f),
{
    if s.len() >= 32 {
        lemma_marked(s, 28);
    }
    lemma_numbers_at(s, 0);
    lemma_numbers_at(s, 8);
    lemma_numbers_at(s, 16);
    lemma_numbers_at(s, 24);
}

} // verus!
