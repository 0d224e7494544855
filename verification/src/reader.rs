//! Random-access reading of an archive.
//!
//! [`Reader::open`] and the methods below it work on the bytes of a whole
//! archive. [`Opening`] takes the same steps one at a time, for a caller that
//! fetches parts of the archive as they are asked for.

use crate::codec;
use crate::crypto;
use crate::crypto::Encryption;
use crate::error::{Error, ErrorView, Result};
use crate::format::{
    copy_range, EncryptionHeader, EncryptionHeaderView, Footer, Header, ENCRYPTION_HEADER_SIZE,
    FOOTER_SIZE, HEADER_SIZE,
};
use crate::frame;
use crate::frame::unseal;
use crate::index;
use crate::index::{read_index, Entry, EntryView};
use vstd::prelude::*;

verus! {

/// How many bytes from the start of an archive tell what is needed to open it.
pub const HEAD_SIZE: u64 = HEADER_SIZE + ENCRYPTION_HEADER_SIZE;

/// The headers at the start of an archive, or the first thing wrong with them.
pub open spec fn head_of(archive: Seq<u8>) -> core::result::Result<
    (Header, Option<EncryptionHeaderView>),
    ErrorView,
> {
    match crate::format::parse_header(archive) {
        Err(e) => Err(e),
        Ok(header) => if !header.encrypted_spec() {
            Ok((header, None))
        } else {
            match crate::format::parse_encryption_header(archive.skip(HEADER_SIZE as int)) {
                Err(e) => Err(e),
                Ok(eh) => Ok((header, Some(eh))),
            }
        },
    }
}

/// The headers of an archive of `total` bytes that starts with `head`, or the
/// error that opening it meets there.
pub open spec fn opening_of(total: nat, head: Seq<u8>) -> core::result::Result<
    (Header, Option<EncryptionHeaderView>),
    ErrorView,
> {
    if total < HEADER_SIZE + FOOTER_SIZE {
        Err(ErrorView::Corrupt("file too small for HGR1"@))
    } else {
        head_of(head)
    }
}

/// The footer of an archive of `total` bytes that ends with `tail`, or the
/// first thing wrong with it: the index has to end where the footer begins.
pub open spec fn footer_of(total: nat, tail: Seq<u8>) -> core::result::Result<Footer, ErrorView> {
    match crate::format::parse_footer(tail) {
        Err(e) => Err(e),
        Ok(footer) => if footer.index_offset + footer.index_size + FOOTER_SIZE != total {
            Err(ErrorView::Corrupt("footer index pointer inconsistent"@))
        } else {
            Ok(footer)
        },
    }
}

/// The entries of an index as it lies in an archive, or the first thing wrong
/// with it.
pub open spec fn entries_of(
    key: Option<Seq<u8>>,
    index_xxh3: u64,
    stored: Seq<u8>,
) -> core::result::Result<Seq<EntryView>, ErrorView> {
    match frame::unsealed(key, stored, "encrypted index too small"@) {
        Err(e) => Err(e),
        Ok(plain) => if codec::xxh3_of(plain) != index_xxh3 {
            Err(ErrorView::IndexChecksum)
        } else {
            match index::parse_index(plain) {
                Err(e) => Err(e),
                Ok((entries, len)) => Ok(entries),
            }
        },
    }
}

/// The last `FOOTER_SIZE` bytes of an archive.
pub open spec fn tail_of(archive: Seq<u8>) -> Seq<u8> {
    archive.skip(archive.len() - FOOTER_SIZE)
}

/// The footer and the entries of an archive with this key, or the first thing
/// wrong behind its headers.
pub open spec fn contents_of(archive: Seq<u8>, key: Option<Seq<u8>>) -> core::result::Result<
    (Footer, Seq<EntryView>),
    ErrorView,
> {
    match footer_of(archive.len(), tail_of(archive)) {
        Err(e) => Err(e),
        Ok(footer) => match entries_of(
            key,
            footer.index_xxh3,
            archive.subrange(
                footer.index_offset as int,
                footer.index_offset + footer.index_size,
            ),
        ) {
            Err(e) => Err(e),
            Ok(entries) => Ok((footer, entries)),
        },
    }
}

/// Which headers an archive starts with is told by its first `HEAD_SIZE`
/// bytes alone.
pub proof fn law_head_suffices(archive: Seq<u8>)
    requires
        archive.len() >= HEAD_SIZE,
    ensures
        head_of(archive.take(HEAD_SIZE as int)) == head_of(archive),
{
    let head = archive.take(HEAD_SIZE as int);
    assert(head.subrange(0, 4) =~= archive.subrange(0, 4));
    assert(head.subrange(4, 6) =~= archive.subrange(4, 6));
    assert(head.subrange(6, 8) =~= archive.subrange(6, 8));
    assert(head.subrange(8, 12) =~= archive.subrange(8, 12));
    assert(head.subrange(12, 20) =~= archive.subrange(12, 20));
    let near = head.skip(HEADER_SIZE as int);
    let far = archive.skip(HEADER_SIZE as int);
    assert(near[0] == far[0] && near[1] == far[1]);
    assert(near.subrange(4, 8) =~= far.subrange(4, 8));
    assert(near.subrange(8, 12) =~= far.subrange(8, 12));
    assert(near.subrange(12, 16) =~= far.subrange(12, 16));
    assert(near.subrange(16, 32) =~= far.subrange(16, 32));
}

/// Whether the headers are those of `head`.
pub open spec fn is_head(
    header: Header,
    enc_header: Option<EncryptionHeader>,
    head: (Header, Option<EncryptionHeaderView>),
) -> bool {
    &&& header == head.0
    &&& match head.1 {
        None => enc_header is None,
        Some(view) => enc_header matches Some(eh) && eh@ == view,
    }
}

/// An archive of which the headers have been read.
pub struct Opening {
    pub total: u64,
    pub header: Header,
    pub enc_header: Option<EncryptionHeader>,
}

impl Opening {
    /// Reads the headers of an archive of `total` bytes. `head` is its first
    /// [`HEAD_SIZE`] bytes, or all of it if it is shorter.
    pub fn start(total: u64, head: &[u8]) -> (res: Result<Opening>)
        ensures
            match opening_of(total as nat, head@) {
                Ok(found) => res matches Ok(opening) && opening.total == total && is_head(
                    opening.header,
                    opening.enc_header,
                    found,
                ),
                Err(e) => res matches Err(x) && x@ == e,
            },
    {
        if total < HEADER_SIZE + FOOTER_SIZE {
            return Err(Error::Corrupt("file too small for HGR1"));
        }
        match Reader::probe(head) {
            Ok((header, enc_header)) => Ok(Opening { total, header, enc_header }),
            Err(e) => Err(e),
        }
    }

    /// Derives the key of an encrypted archive from its password; an archive
    /// that is not encrypted has no key.
    pub fn unlock(&self, password: &str) -> (res: Result<Option<Encryption>>)
        ensures
            match self.enc_header {
                None => res matches Ok(enc) && enc is None,
                Some(eh) => match crypto::derivation_fault(password@, eh.argon2) {
                    Some(text) => res matches Err(e) && e@ == ErrorView::Crypto(text),
                    None => res matches Ok(enc) && frame::key_of(enc) == Some(
                        crypto::derived_key(password@, eh.salt@, eh.argon2),
                    ),
                },
            },
    {
        match &self.enc_header {
            None => Ok(None),
            Some(eh) => match Encryption::from_password(password, eh.salt, eh.argon2) {
                Ok(enc) => Ok(Some(enc)),
                Err(e) => Err(e),
            },
        }
    }

    /// Reads the footer from `tail`, the last [`FOOTER_SIZE`] bytes.
    pub fn locate(&self, tail: &[u8]) -> (res: Result<Footer>)
        ensures
            match footer_of(self.total as nat, tail@) {
                Ok(footer) => res == Ok::<Footer, Error>(footer),
                Err(e) => res matches Err(x) && x@ == e,
            },
    {
        let mut rest: &[u8] = tail;
        match Footer::read_from(&mut rest) {
            Ok(footer) => {
                let consistent = match footer.index_offset.checked_add(footer.index_size) {
                    Some(end) => match end.checked_add(FOOTER_SIZE) {
                        Some(total) => total == self.total,
                        None => false,
                    },
                    None => false,
                };
                if consistent {
                    Ok(footer)
                } else {
                    Err(Error::Corrupt("footer index pointer inconsistent"))
                }
            },
            Err(e) => Err(e),
        }
    }

    /// Reads the index from `stored`, the bytes that the footer points to.
    pub fn load(self, encryption: Option<Encryption>, footer: Footer, stored: Vec<u8>) -> (res:
        Result<Reader>)
        ensures
            match entries_of(frame::key_of(encryption), footer.index_xxh3, stored@) {
                Ok(entries) => res matches Ok(reader) && {
                    &&& reader.header == self.header
                    &&& reader.footer == footer
                    &&& index::views(reader.entries@) == entries
                    &&& reader.encryption == encryption
                },
                Err(e) => res matches Err(x) && x@ == e,
            },
    {
        let plain = match unseal(&encryption, stored, "encrypted index too small") {
            Ok(plain) => plain,
            Err(e) => {
                return Err(e);
            },
        };
        if codec::xxh3(plain.as_slice()) != footer.index_xxh3 {
            return Err(Error::IndexChecksum);
        }
        let mut rest: &[u8] = plain.as_slice();
        match read_index(&mut rest) {
            Ok(entries) => Ok(Reader { header: self.header, footer, entries, encryption }),
            Err(e) => Err(e),
        }
    }
}

/// An open archive: its headers, its entries, and the key if it has one.
pub struct Reader {
    pub header: Header,
    pub footer: Footer,
    pub entries: Vec<Entry>,
    pub encryption: Option<Encryption>,
}

/// Whether `res` is what opening `archive` gives once its headers have been
/// read and its key is known.
pub open spec fn opens_to(
    archive: Seq<u8>,
    header: Header,
    key: Option<Seq<u8>>,
    res: Result<Reader>,
) -> bool {
    match contents_of(archive, key) {
        Ok((footer, entries)) => res matches Ok(reader) && {
            &&& reader.header == header
            &&& reader.footer == footer
            &&& index::views(reader.entries@) == entries
            &&& frame::key_of(reader.encryption) == key
        },
        Err(e) => res matches Err(x) && x@ == e,
    }
}

/// Whether `res` is what opening an encrypted `archive` gives when asking for
/// the password has led to `provided`.
pub open spec fn opens_with(
    archive: Seq<u8>,
    header: Header,
    eh: EncryptionHeaderView,
    provided: Result<String>,
    res: Result<Reader>,
) -> bool {
    match provided {
        Err(e) => res == Err::<Reader, Error>(e),
        Ok(password) => match crypto::derivation_fault(password@, eh.argon2) {
            Some(text) => res matches Err(x) && x@ == ErrorView::Crypto(text),
            None => opens_to(
                archive,
                header,
                Some(crypto::derived_key(password@, eh.salt, eh.argon2)),
                res,
            ),
        },
    }
}

impl Reader {
    /// Reads just the headers. Lets a caller decide whether a password is
    /// needed before the archive is opened.
    pub fn probe(archive: &[u8]) -> (res: Result<(Header, Option<EncryptionHeader>)>)
        ensures
            match head_of(archive@) {
                Ok(head) => res matches Ok((header, enc_header)) && is_head(
                    header,
                    enc_header,
                    head,
                ),
                Err(e) => res matches Err(x) && x@ == e,
            },
    {
        let mut rest: &[u8] = archive;
        let header = match Header::read_from(&mut rest) {
            Ok(header) => header,
            Err(e) => {
                return Err(e);
            },
        };
        if header.encrypted() {
            match EncryptionHeader::read_from(&mut rest) {
                Ok(eh) => Ok((header, Some(eh))),
                Err(e) => Err(e),
            }
        } else {
            Ok((header, None))
        }
    }

    /// Opens an archive. `password_provider` is called only if the archive is
    /// encrypted.
    pub fn open<F: FnOnce() -> Result<String>>(archive: &[u8], password_provider: F) -> (res:
        Result<Self>)
        requires
            opening_of(archive@.len(), archive@) matches Ok((_, Some(_)))
                ==> password_provider.requires(()),
        ensures
            match opening_of(archive@.len(), archive@) {
                Err(e) => res matches Err(x) && x@ == e,
                Ok((header, None)) => opens_to(archive@, header, None, res),
                Ok((header, Some(eh))) => exists|provided: Result<String>| #[trigger]
                    password_provider.ensures((), provided) && opens_with(
                        archive@,
                        header,
                        eh,
                        provided,
                        res,
                    ),
            },
    {
        let total: usize = archive.len();
        let opening = match Opening::start(total as u64, archive) {
            Ok(opening) => opening,
            Err(e) => {
                return Err(e);
            },
        };
        let ghost header = opening.header;
        let ghost enc_header = opening.enc_header;
        if opening.enc_header.is_some() {
            let provided = password_provider();
            let ghost outcome = provided;
            let password = match provided {
                Ok(password) => password,
                Err(e) => {
                    let res: Result<Self> = Err(e);
                    assert(opens_with(archive@, header, enc_header->Some_0@, outcome, res));
                    return res;
                },
            };
            let encryption = match opening.unlock(password.as_str()) {
                Ok(encryption) => encryption,
                Err(e) => {
                    let res: Result<Self> = Err(e);
                    assert(opens_with(archive@, header, enc_header->Some_0@, outcome, res));
                    return res;
                },
            };
            let res = Self::open_unlocked(archive, opening, encryption);
            assert(opens_with(archive@, header, enc_header->Some_0@, outcome, res));
            res
        } else {
            Self::open_unlocked(archive, opening, None)
        }
    }

    /// The part of [`Reader::open`] that follows once the key is known.
    fn open_unlocked(archive: &[u8], opening: Opening, encryption: Option<Encryption>) -> (res:
        Result<Self>)
        requires
            opening.total == archive@.len(),
            opening.total >= HEADER_SIZE + FOOTER_SIZE,
        ensures
            opens_to(archive@, opening.header, frame::key_of(encryption), res),
    {
        let total: usize = archive.len();
        let tail: &[u8] = vstd::slice::slice_subrange(archive, total - FOOTER_SIZE as usize, total);
        assert(tail@ =~= tail_of(archive@));
        let footer = match opening.locate(tail) {
            Ok(footer) => footer,
            Err(e) => {
                return Err(e);
            },
        };
        let start: usize = footer.index_offset as usize;
        let end: usize = (footer.index_offset + footer.index_size) as usize;
        opening.load(encryption, footer, copy_range(archive, start, end))
    }
}

} // verus!
