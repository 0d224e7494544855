//! XChaCha20-Poly1305 authenticated encryption, keyed by Argon2id.
//!
//! An encrypted frame is `nonce(24) || ciphertext || tag(16)`. The 24-byte
//! nonce is drawn at random for every frame; the size that an entry records
//! for its frame covers all three parts.

use crate::error::{Error, ErrorView, Result};
use crate::text::joined;
use chacha20poly1305::aead::generic_array::GenericArray;
use chacha20poly1305::aead::AeadInPlace;
use chacha20poly1305::{KeyInit, XChaCha20Poly1305};
use vstd::prelude::*;
use vstd::utf8::*;

verus! {

pub const KEY_SIZE: usize = 32;

pub const NONCE_SIZE: usize = 24;

pub const TAG_SIZE: usize = 16;

pub const SALT_SIZE: usize = 16;

/// What encryption adds to the size of a frame.
pub const FRAME_OVERHEAD: usize = NONCE_SIZE + TAG_SIZE;

/// The longest message, in bytes, that one nonce can cover: the cipher counts
/// 64-byte blocks in 32 bits, the first block goes to the tag's key, and the
/// last counter value stays unused.
pub const MESSAGE_LIMIT: u64 = 274_877_906_816;

/// The cipher that an archive names in its header.
#[derive(Debug, Clone, Copy, PartialEq, Eq, Structural)]
pub enum CipherAlgo {
    XChaCha20Poly1305,
}

impl CipherAlgo {
    /// The number that stands for the cipher in an archive.
    pub open spec fn code_spec(self) -> u8 {
        match self {
            CipherAlgo::XChaCha20Poly1305 => 1,
        }
    }

    /// The cipher that a number in an archive stands for.
    pub open spec fn decode(b: u8) -> core::result::Result<CipherAlgo, ErrorView> {
        if b == 1 {
            Ok(CipherAlgo::XChaCha20Poly1305)
        } else {
            Err(ErrorView::Corrupt("unknown cipher algorithm"@))
        }
    }

    /// The number that stands for the cipher in an archive.
    pub fn code(self) -> (b: u8)
        ensures
            b == self.code_spec(),
    {
        match self {
            CipherAlgo::XChaCha20Poly1305 => 1,
        }
    }

    /// The cipher that a number in an archive stands for.
    pub fn from_u8(b: u8) -> (res: Result<Self>)
        ensures
            match Self::decode(b) {
                Ok(algo) => res == Ok::<Self, Error>(algo),
                Err(e) => res matches Err(x) && x@ == e,
            },
    {
        match b {
            1 => Ok(CipherAlgo::XChaCha20Poly1305),
            _ => Err(Error::Corrupt("unknown cipher algorithm")),
        }
    }
}

/// The key derivation that an archive names in its header.
#[derive(Debug, Clone, Copy, PartialEq, Eq, Structural)]
pub enum KdfAlgo {
    Argon2id,
}

impl KdfAlgo {
    /// The number that stands for the derivation in an archive.
    pub open spec fn code_spec(self) -> u8 {
        match self {
            KdfAlgo::Argon2id => 1,
        }
    }

    /// The derivation that a number in an archive stands for.
    pub open spec fn decode(b: u8) -> core::result::Result<KdfAlgo, ErrorView> {
        if b == 1 {
            Ok(KdfAlgo::Argon2id)
        } else {
            Err(ErrorView::Corrupt("unknown KDF algorithm"@))
        }
    }

    /// The number that stands for the derivation in an archive.
    pub fn code(self) -> (b: u8)
        ensures
            b == self.code_spec(),
    {
        match self {
            KdfAlgo::Argon2id => 1,
        }
    }

    /// The derivation that a number in an archive stands for.
    pub fn from_u8(b: u8) -> (res: Result<Self>)
        ensures
            match Self::decode(b) {
                Ok(algo) => res == Ok::<Self, Error>(algo),
                Err(e) => res matches Err(x) && x@ == e,
            },
    {
        match b {
            1 => Ok(KdfAlgo::Argon2id),
            _ => Err(Error::Corrupt("unknown KDF algorithm")),
        }
    }
}

/// Argon2id parameters. The defaults take about half a second on a laptop.
#[derive(Debug, Clone, Copy, PartialEq, Eq, Structural)]
pub struct Argon2Params {
    pub m_cost_kib: u32,
    pub t_cost: u32,
    pub p_cost: u32,
}

impl Default for Argon2Params {
    fn default() -> (params: Self)
        ensures
            params.m_cost_kib == 65536,
            params.t_cost == 3,
            params.p_cost == 4,
    {
        Argon2Params { m_cost_kib: 64 * 1024, t_cost: 3, p_cost: 4 }
    }
}

/// What Argon2 finds wrong with its cost parameters, first fault first.
pub open spec fn params_fault(params: Argon2Params) -> Option<Seq<char>> {
    if params.m_cost_kib < 8 || params.m_cost_kib < params.p_cost * 8 {
        Some("memory cost is too small"@)
    } else if params.t_cost < 1 {
        Some("time cost is too small"@)
    } else if params.p_cost < 1 {
        Some("not enough threads"@)
    } else if params.p_cost > 0xFF_FFFF {
        Some("too many threads"@)
    } else {
        None
    }
}

/// Whether a password has more bytes than Argon2 takes.
pub open spec fn password_too_long(password: Seq<char>) -> bool {
    encode_utf8(password).len() > 0xFFFF_FFFF
}

/// The text of the error that deriving a key from this password meets, if any.
pub open spec fn derivation_fault(password: Seq<char>, params: Argon2Params) -> Option<Seq<char>> {
    match params_fault(params) {
        Some(fault) => Some("argon2 params: "@ + fault),
        None => if password_too_long(password) {
            Some("argon2 derive: "@ + "password is too long"@)
        } else {
            None
        },
    }
}

/// The 32 bytes that Argon2id version 0x13 derives from a password and a salt
/// with `m_cost` KiB of memory, `t_cost` passes and `p_cost` lanes.
pub uninterp spec fn argon2id_key(
    password: Seq<u8>,
    salt: Seq<u8>,
    m_cost: u32,
    t_cost: u32,
    p_cost: u32,
) -> Seq<u8>;

/// The ciphertext and the tag that XChaCha20-Poly1305 makes of a message, with
/// no associated data.
pub uninterp spec fn xchacha20poly1305_seal(
    key: Seq<u8>,
    nonce: Seq<u8>,
    message: Seq<u8>,
) -> (Seq<u8>, Seq<u8>);

/// The message that XChaCha20-Poly1305 recovers from a ciphertext and a tag, if
/// the tag is the right one.
pub uninterp spec fn xchacha20poly1305_open(
    key: Seq<u8>,
    nonce: Seq<u8>,
    ciphertext: Seq<u8>,
    tag: Seq<u8>,
) -> Option<Seq<u8>>;

/// The key that a password and the stored salt and parameters lead to.
pub open spec fn derived_key(password: Seq<char>, salt: Seq<u8>, params: Argon2Params) -> Seq<u8> {
    argon2id_key(
        encode_utf8(password),
        salt,
        params.m_cost_kib,
        params.t_cost,
        params.p_cost,
    )
}

/// The message behind a ciphertext: none where the tag does not match, or where
/// the ciphertext is longer than any message can be.
pub open spec fn recover(
    key: Seq<u8>,
    nonce: Seq<u8>,
    ciphertext: Seq<u8>,
    tag: Seq<u8>,
) -> Option<Seq<u8>> {
    if ciphertext.len() > MESSAGE_LIMIT {
        None
    } else {
        xchacha20poly1305_open(key, nonce, ciphertext, tag)
    }
}

/// Whether no other tag than `tag` opens a ciphertext.
pub open spec fn only_tag(
    key: Seq<u8>,
    nonce: Seq<u8>,
    ciphertext: Seq<u8>,
    tag: Seq<u8>,
) -> bool {
    forall|other: Seq<u8>|
        other.len() == TAG_SIZE && other != tag ==> (#[trigger] recover(
            key,
            nonce,
            ciphertext,
            other,
        )) is None
}

/// `argon2::Params::new` for a 32-byte output: reports the first fault of the
/// cost parameters, in the words of `argon2::Error`. The product of `p_cost`
/// and 8 has to fit in 32 bits, because that function computes it so.
#[verifier::external_body]
fn argon2_params_check(m_cost: u32, t_cost: u32, p_cost: u32) -> (res: core::result::Result<
    (),
    String,
>)
    requires
        p_cost * 8 <= u32::MAX,
    ensures
        match params_fault((Argon2Params { m_cost_kib: m_cost, t_cost, p_cost })) {
            None => res is Ok,
            Some(fault) => res matches Err(text) && text@ == fault,
        },
{
    argon2::Params::new(m_cost, t_cost, p_cost, Some(KEY_SIZE)).map(|_| ()).map_err(
        |e| e.to_string(),
    )
}

/// `argon2::Argon2::hash_password_into` with Argon2id version 0x13 and a 32-byte
/// output: fails exactly on a password of more than 2^32 - 1 bytes, and
/// otherwise writes a key that depends on nothing but the arguments. It
/// allocates `m_cost` KiB.
#[verifier::external_body]
fn argon2_derive(
    password: &str,
    salt: &[u8; SALT_SIZE],
    m_cost: u32,
    t_cost: u32,
    p_cost: u32,
    key: &mut [u8; KEY_SIZE],
) -> (res: core::result::Result<(), String>)
    requires
        params_fault((Argon2Params { m_cost_kib: m_cost, t_cost, p_cost })) is None,
    ensures
        res is Err <==> password_too_long(password@),
        res matches Err(text) ==> text@ == "password is too long"@,
        res is Ok ==> final(key)@ == argon2id_key(
            encode_utf8(password@),
            salt@,
            m_cost,
            t_cost,
            p_cost,
        ),
{
    argon2::Params::new(m_cost, t_cost, p_cost, Some(KEY_SIZE)).and_then(
        |params| argon2::Argon2::new(
            argon2::Algorithm::Argon2id,
            argon2::Version::V0x13,
            params,
        ).hash_password_into(password.as_bytes(), salt, key),
    ).map_err(|e| e.to_string())
}

/// `getrandom::getrandom`: `N` bytes from the system's random source, or the
/// text of its error. Nothing is promised of either.
#[verifier::external_body]
fn random_bytes<const N: usize>() -> (res: core::result::Result<[u8; N], String>) {
    let mut bytes = [0u8;N];
    getrandom::getrandom(&mut bytes).map(|_| bytes).map_err(|e| e.to_string())
}

/// `XChaCha20Poly1305::encrypt_in_place_detached` with no associated data: turns
/// the message into its ciphertext, of the same length, and returns the tag.
/// Opening the two again gives the message back. Opening compares the tag with
/// the one that it computes, so with any other tag there is no message.
#[verifier::external_body]
fn aead_seal(key: &[u8; KEY_SIZE], nonce: &[u8; NONCE_SIZE], buf: &mut [u8]) -> (res: Option<
    [u8; TAG_SIZE],
>)
    requires
        old(buf)@.len() <= MESSAGE_LIMIT,
    ensures
        res matches Some(tag) && {
            &&& xchacha20poly1305_seal(key@, nonce@, old(buf)@) == (final(buf)@, tag@)
            &&& final(buf)@.len() == old(buf)@.len()
            &&& xchacha20poly1305_open(key@, nonce@, final(buf)@, tag@) == Some(old(buf)@)
            &&& forall|other: Seq<u8>|
                other.len() == TAG_SIZE && other != tag@ ==> (
                #[trigger] xchacha20poly1305_open(key@, nonce@, final(buf)@, other)) is None
        },
{
    let cipher = XChaCha20Poly1305::new(GenericArray::from_slice(&key[..]));
    let nonce = GenericArray::from_slice(&nonce[..]);
    cipher.encrypt_in_place_detached(nonce, b"", buf).ok().map(|tag| tag.into())
}

/// `XChaCha20Poly1305::decrypt_in_place_detached` with no associated data: turns
/// the ciphertext into its message, of the same length, if the tag is the
/// right one, and otherwise leaves the buffer as it was and reports failure.
#[verifier::external_body]
fn aead_open(
    key: &[u8; KEY_SIZE],
    nonce: &[u8; NONCE_SIZE],
    tag: &[u8; TAG_SIZE],
    buf: &mut [u8],
) -> (res: bool)
    requires
        old(buf)@.len() <= MESSAGE_LIMIT,
    ensures
        final(buf)@.len() == old(buf)@.len(),
        match xchacha20poly1305_open(key@, nonce@, old(buf)@, tag@) {
            Some(message) => res && final(buf)@ == message,
            None => !res && final(buf)@ == old(buf)@,
        },
{
    let cipher = XChaCha20Poly1305::new(GenericArray::from_slice(&key[..]));
    let nonce = GenericArray::from_slice(&nonce[..]);
    let tag = GenericArray::from_slice(&tag[..]);
    cipher.decrypt_in_place_detached(nonce, b"", buf, tag).is_ok()
}

/// `zeroize::Zeroize::zeroize` on an array of bytes: sets every byte to zero.
#[verifier::external_body]
fn wipe(key: &mut [u8; KEY_SIZE])
    ensures
        final(key)@ == Seq::new(KEY_SIZE as nat, |i: int| 0u8),
    opens_invariants none
    no_unwind
{
    zeroize::Zeroize::zeroize(key)
}

/// The derived key, with the salt and the parameters that lead to it again.
/// The key is wiped when the value is dropped.
pub struct Encryption {
    pub key: [u8; KEY_SIZE],
    pub salt: [u8; SALT_SIZE],
    pub argon2: Argon2Params,
}

impl Drop for Encryption {
    fn drop(&mut self)
        ensures
            final(self).key@ == Seq::new(KEY_SIZE as nat, |i: int| 0u8),
        opens_invariants none
        no_unwind
    {
        wipe(&mut self.key);
    }
}

impl Encryption {
    /// Whether this is what a password leads to, with the salt and the
    /// parameters that are stored here.
    pub open spec fn unlocked_by(self, password: Seq<char>) -> bool {
        &&& derivation_fault(password, self.argon2) is None
        &&& self.key@ == derived_key(password, self.salt@, self.argon2)
    }

    /// Derives a key from a password with a fresh random salt.
    pub fn from_new_password(password: &str, argon2: Argon2Params) -> (res: Result<Self>)
        ensures
            match res {
                Ok(enc) => enc.argon2 == argon2 && enc.unlocked_by(password@),
                Err(e) => e@ is Crypto,
            },
            derivation_fault(password@, argon2) is Some ==> res is Err,
    {
        match random_bytes::<SALT_SIZE>() {
            Ok(salt) => Self::from_password(password, salt, argon2),
            Err(text) => Err(Error::Crypto(text)),
        }
    }

    /// Derives the key again with a stored salt and stored parameters.
    pub fn from_password(
        password: &str,
        salt: [u8; SALT_SIZE],
        argon2: Argon2Params,
    ) -> (res: Result<Self>)
        ensures
            match derivation_fault(password@, argon2) {
                None => res matches Ok(enc) && enc.salt@ == salt@ && enc.argon2 == argon2
                    && enc.key@ == derived_key(password@, salt@, argon2),
                Some(text) => res matches Err(e) && e@ == ErrorView::Crypto(text),
            },
    {
        if argon2.p_cost > 0x1FFF_FFFF {
            return Err(Error::Crypto(joined("argon2 params: ", "memory cost is too small")));
        }
        match argon2_params_check(argon2.m_cost_kib, argon2.t_cost, argon2.p_cost) {
            Ok(_) => {},
            Err(text) => {
                return Err(Error::Crypto(joined("argon2 params: ", text.as_str())));
            },
        }
        let mut enc = Encryption { key: [0u8;KEY_SIZE], salt, argon2 };
        match argon2_derive(
            password,
            &salt,
            argon2.m_cost_kib,
            argon2.t_cost,
            argon2.p_cost,
            &mut enc.key,
        ) {
            Ok(_) => Ok(enc),
            Err(text) => Err(Error::Crypto(joined("argon2 derive: ", text.as_str()))),
        }
    }

    /// Encrypts `buf` in place under `nonce` and returns the tag.
    pub fn encrypt_with_nonce(&self, nonce: &[u8; NONCE_SIZE], buf: &mut [u8]) -> (res: Result<
        [u8; TAG_SIZE],
    >)
        ensures
            final(buf)@.len() == old(buf)@.len(),
            if old(buf)@.len() <= MESSAGE_LIMIT {
                res matches Ok(tag) && {
                    &&& (final(buf)@, tag@) == xchacha20poly1305_seal(
                        self.key@,
                        nonce@,
                        old(buf)@,
                    )
                    &&& recover(self.key@, nonce@, final(buf)@, tag@) == Some(old(buf)@)
                    &&& only_tag(self.key@, nonce@, final(buf)@, tag@)
                }
            } else {
                &&& final(buf)@ == old(buf)@
                &&& (res matches Err(e) && e@ == ErrorView::Crypto("AEAD encrypt failed"@))
            },
    {
        if buf.len() as u64 > MESSAGE_LIMIT {
            return Err(Error::Crypto(String::from_str("AEAD encrypt failed")));
        }
        match aead_seal(&self.key, nonce, buf) {
            Some(tag) => Ok(tag),
            None => Err(Error::Crypto(String::from_str("AEAD encrypt failed"))),
        }
    }

    /// Encrypts `buf` in place under a fresh random nonce. Returns the nonce
    /// and the tag.
    pub fn encrypt(&self, buf: &mut [u8]) -> (res: Result<([u8; NONCE_SIZE], [u8; TAG_SIZE])>)
        ensures
            final(buf)@.len() == old(buf)@.len(),
            match res {
                Ok((nonce, tag)) => {
                    &&& (final(buf)@, tag@) == xchacha20poly1305_seal(
                        self.key@,
                        nonce@,
                        old(buf)@,
                    )
                    &&& recover(self.key@, nonce@, final(buf)@, tag@) == Some(old(buf)@)
                    &&& only_tag(self.key@, nonce@, final(buf)@, tag@)
                },
                Err(e) => e@ is Crypto && final(buf)@ == old(buf)@,
            },
            old(buf)@.len() > MESSAGE_LIMIT ==> res is Err,
    {
        match random_bytes::<NONCE_SIZE>() {
            Ok(nonce) => match self.encrypt_with_nonce(&nonce, buf) {
                Ok(tag) => Ok((nonce, tag)),
                Err(e) => Err(e),
            },
            Err(text) => Err(Error::Crypto(text)),
        }
    }

    /// Decrypts `buf` in place. A tag that does not match is reported as
    /// [`Error::WrongPasswordOrTampered`].
    pub fn decrypt(
        &self,
        nonce: &[u8; NONCE_SIZE],
        tag: &[u8; TAG_SIZE],
        buf: &mut [u8],
    ) -> (res: Result<()>)
        ensures
            final(buf)@.len() == old(buf)@.len(),
            match recover(self.key@, nonce@, old(buf)@, tag@) {
                Some(message) => res is Ok && final(buf)@ == message,
                None => final(buf)@ == old(buf)@ && (res matches Err(e) && e@
                    == ErrorView::WrongPasswordOrTampered),
            },
    {
        if buf.len() as u64 > MESSAGE_LIMIT {
            return Err(Error::WrongPasswordOrTampered);
        }
        if aead_open(&self.key, nonce, tag, buf) {
            Ok(())
        } else {
            Err(Error::WrongPasswordOrTampered)
        }
    }
}

/// A ciphertext that was made by encryption is refused with any tag but its own.
pub proof fn law_other_tags_are_refused(
    key: Seq<u8>,
    nonce: Seq<u8>,
    ciphertext: Seq<u8>,
    tag: Seq<u8>,
    other: Seq<u8>,
)
    requires
        only_tag(key, nonce, ciphertext, tag),
        other.len() == TAG_SIZE,
        other != tag,
    ensures
        recover(key, nonce, ciphertext, other) is None,
{
}

/// A key is derived exactly from costs that Argon2 takes and a password that it
/// takes, and it is what Argon2id makes of that password, that salt and those
/// costs: all of the password, and all of the salt.
pub proof fn law_derived_key(
    password: &str,
    salt: [u8; SALT_SIZE],
    argon2: Argon2Params,
    res: Result<Encryption>,
)
    requires
        call_ensures(Encryption::from_password, (password, salt, argon2), res),
    ensures
        res is Ok <==> {
            &&& argon2.m_cost_kib >= 8
            &&& argon2.m_cost_kib >= 8 * argon2.p_cost
            &&& argon2.t_cost >= 1
            &&& 1 <= argon2.p_cost <= 0xFF_FFFF
            &&& encode_utf8(password@).len() <= 0xFFFF_FFFF
        },
        res matches Ok(enc) ==> {
            &&& enc.key@ == argon2id_key(
                encode_utf8(password@),
                salt@,
                argon2.m_cost_kib,
                argon2.t_cost,
                argon2.p_cost,
            )
            &&& enc.salt@ == salt@
            &&& enc.argon2 == argon2
        },
        res matches Err(e) ==> e@ is Crypto,
{
}

/// What a new password leads to is found again with the salt and the costs that
/// are kept of it: the same password derives the same key.
pub proof fn law_new_key_is_found_again(
    password: &str,
    argon2: Argon2Params,
    res: Result<Encryption>,
    again: Result<Encryption>,
)
    requires
        call_ensures(Encryption::from_new_password, (password, argon2), res),
        res is Ok,
        call_ensures(
            Encryption::from_password,
            (password, res->Ok_0.salt, res->Ok_0.argon2),
            again,
        ),
    ensures
        argon2.m_cost_kib >= 8 && argon2.m_cost_kib >= 8 * argon2.p_cost,
        argon2.t_cost >= 1 && 1 <= argon2.p_cost <= 0xFF_FFFF,
        res->Ok_0.argon2 == argon2,
        again matches Ok(enc) && enc.key@ == res->Ok_0.key@ && enc.salt@ == res->Ok_0.salt@
            && enc.unlocked_by(password@),
        res->Ok_0.unlocked_by(password@),
{
}

/// What was encrypted under a nonce is decrypted with the same key, the same
/// nonce and the tag that came with it, and is then what it was; with any other
/// tag it is refused and left alone. It is what XChaCha20-Poly1305 makes of it.
pub proof fn law_decrypts_what_was_encrypted(
    enc: Encryption,
    nonce: [u8; NONCE_SIZE],
    tag: [u8; TAG_SIZE],
    other: [u8; TAG_SIZE],
)
    requires
        other@ != tag@,
    ensures
        forall|
            buf: &mut [u8],
            ciphertext: &mut [u8],
            back: Result<()>,
        | #[trigger]
            call_ensures(Encryption::encrypt_with_nonce, (&enc, &nonce, buf), Ok(tag))
                && ciphertext@ == final(buf)@ && #[trigger]
            call_ensures(Encryption::decrypt, (&enc, &nonce, &tag, ciphertext), back) ==> {
                &&& back is Ok
                &&& final(ciphertext)@ == buf@
                &&& final(buf)@.len() == buf@.len()
                &&& (final(buf)@, tag@) == xchacha20poly1305_seal(enc.key@, nonce@, buf@)
            },
        forall|
            buf: &mut [u8],
            ciphertext: &mut [u8],
            back: Result<()>,
        | #[trigger]
            call_ensures(Encryption::encrypt_with_nonce, (&enc, &nonce, buf), Ok(tag))
                && ciphertext@ == final(buf)@ && #[trigger]
            call_ensures(Encryption::decrypt, (&enc, &nonce, &other, ciphertext), back) ==> {
                &&& (back matches Err(e) && e@ == ErrorView::WrongPasswordOrTampered)
                &&& final(ciphertext)@ == ciphertext@
            },
{
}

/// A message of up to 274877906816 bytes can be encrypted, and none that is
/// longer.
pub proof fn law_message_limit(enc: Encryption, nonce: [u8; NONCE_SIZE])
    ensures
        forall|buf: &mut [u8], res: Result<[u8; TAG_SIZE]>| #[trigger]
            call_ensures(Encryption::encrypt_with_nonce, (&enc, &nonce, buf), res) ==> (res is Ok
                <==> buf@.len() <= 274_877_906_816) && (res is Err ==> final(buf)@ == buf@),
{
}

/// A ciphertext is accepted exactly where the cipher opens it under this key,
/// this nonce and this tag, and gives what the cipher gives.
pub proof fn law_decryption_is_the_cipher(
    enc: Encryption,
    nonce: [u8; NONCE_SIZE],
    tag: [u8; TAG_SIZE],
)
    ensures
        forall|buf: &mut [u8], res: Result<()>| #[trigger]
            call_ensures(Encryption::decrypt, (&enc, &nonce, &tag, buf), res) && buf@.len()
                <= 274_877_906_816 ==> match xchacha20poly1305_open(
                enc.key@,
                nonce@,
                buf@,
                tag@,
            ) {
                Some(message) => res is Ok && final(buf)@ == message,
                None => {
                    &&& (res matches Err(e) && e@ == ErrorView::WrongPasswordOrTampered)
                    &&& final(buf)@ == buf@
                },
            },
{
}

/// The one cipher and the one derivation have the number 1, and no other number
/// stands for one.
pub proof fn law_algorithm_numbers(
    b: u8,
    cipher: Result<CipherAlgo>,
    kdf: Result<KdfAlgo>,
    cipher_number: u8,
    kdf_number: u8,
)
    requires
        call_ensures(CipherAlgo::from_u8, (b,), cipher),
        call_ensures(KdfAlgo::from_u8, (b,), kdf),
        call_ensures(CipherAlgo::code, (CipherAlgo::XChaCha20Poly1305,), cipher_number),
        call_ensures(KdfAlgo::code, (KdfAlgo::Argon2id,), kdf_number),
    ensures
        cipher is Ok <==> b == 1,
        kdf is Ok <==> b == 1,
        cipher_number == 1,
        kdf_number == 1,
{
}

/// What was encrypted under a fresh nonce is decrypted with that nonce and the
/// tag, and is then what it was.
pub proof fn law_fresh_nonce_decrypts(
    enc: Encryption,
    nonce: [u8; NONCE_SIZE],
    tag: [u8; TAG_SIZE],
)
    ensures
        forall|
            buf: &mut [u8],
            ciphertext: &mut [u8],
            back: Result<()>,
        | #[trigger]
            call_ensures(Encryption::encrypt, (&enc, buf), Ok((nonce, tag))) && ciphertext@
                == final(buf)@ && #[trigger]
            call_ensures(Encryption::decrypt, (&enc, &nonce, &tag, ciphertext), back) ==> back is Ok
                && final(ciphertext)@ == buf@,
        forall|buf: &mut [u8], e: Error| #[trigger]
            call_ensures(Encryption::encrypt, (&enc, buf), Err(e)) ==> final(buf)@ == buf@ && e@
                is Crypto,
{
}

/// Unless asked otherwise, deriving a key takes 64 MiB, three passes and four
/// lanes.
pub proof fn law_default_costs(params: Argon2Params)
    requires
        call_ensures(<Argon2Params as Default>::default, (), params),
    ensures
        params.m_cost_kib == 65536,
        params.t_cost == 3,
        params.p_cost == 4,
{
}

} // verus!
