//! A frame as it lies in an archive: a payload as it is, or encrypted with the
//! nonce before it and the tag behind it.

use crate::crypto;
use crate::crypto::{Encryption, FRAME_OVERHEAD, NONCE_SIZE, TAG_SIZE};
use crate::error::{Error, ErrorView, Result};
use crate::format::{array_at, copy_range, put_bytes};
use vstd::prelude::*;

verus! {

/// The key of an archive, if it has one.
pub open spec fn key_of(encryption: Option<Encryption>) -> Option<Seq<u8>> {
    match encryption {
        Some(enc) => Some(enc.key@),
        None => None,
    }
}

/// The encrypted form of a payload under a nonce.
pub open spec fn sealed_under(key: Seq<u8>, nonce: Seq<u8>, payload: Seq<u8>) -> Seq<u8> {
    let (ciphertext, tag) = crypto::xchacha20poly1305_seal(key, nonce, payload);
    nonce + ciphertext + tag
}

/// Whether `frame` is a form in which an archive with this key may hold
/// `payload`.
pub open spec fn sealed(key: Option<Seq<u8>>, payload: Seq<u8>, frame: Seq<u8>) -> bool {
    match key {
        None => frame == payload,
        Some(k) => exists|nonce: Seq<u8>|
            nonce.len() == NONCE_SIZE && frame == #[trigger] sealed_under(k, nonce, payload),
    }
}

/// The payload of a frame, or the error that reading it gives; `too_small` is
/// the text for a frame that cannot even hold a nonce and a tag.
pub open spec fn unsealed(
    key: Option<Seq<u8>>,
    frame: Seq<u8>,
    too_small: Seq<char>,
) -> core::result::Result<Seq<u8>, ErrorView> {
    match key {
        None => Ok(frame),
        Some(k) => if frame.len() < FRAME_OVERHEAD {
            Err(ErrorView::Corrupt(too_small))
        } else {
            let end = frame.len() - TAG_SIZE;
            match crypto::recover(
                k,
                frame.subrange(0, NONCE_SIZE as int),
                frame.subrange(NONCE_SIZE as int, end),
                frame.subrange(end, frame.len() as int),
            ) {
                Some(payload) => Ok(payload),
                None => Err(ErrorView::WrongPasswordOrTampered),
            }
        },
    }
}

/// How many bytes a frame has beyond its payload.
pub open spec fn overhead(key: Option<Seq<u8>>) -> nat {
    match key {
        None => 0,
        Some(_) => FRAME_OVERHEAD as nat,
    }
}

/// Encrypts a payload under a nonce and puts the parts of the frame together.
pub fn seal_with_nonce(enc: &Encryption, nonce: &[u8; NONCE_SIZE], payload: Vec<u8>) -> (res:
    Result<Vec<u8>>)
    ensures
        payload@.len() <= crypto::MESSAGE_LIMIT <==> res is Ok,
        match res {
            Ok(frame) => {
                &&& frame@ == sealed_under(enc.key@, nonce@, payload@)
                &&& frame@.len() == payload@.len() + FRAME_OVERHEAD
                &&& forall|text: Seq<char>| #[trigger]
                    unsealed(Some(enc.key@), frame@, text) == Ok::<Seq<u8>, ErrorView>(payload@)
            },
            Err(e) => e@ == ErrorView::Crypto("AEAD encrypt failed"@),
        },
{
    let mut body: Vec<u8> = payload;
    let tag = match enc.encrypt_with_nonce(nonce, body.as_mut_slice()) {
        Ok(tag) => tag,
        Err(e) => {
            return Err(e);
        },
    };
    Ok(assemble(nonce, &body, &tag))
}

/// The three parts of an encrypted frame, one after the other.
fn assemble(nonce: &[u8; NONCE_SIZE], body: &Vec<u8>, tag: &[u8; TAG_SIZE]) -> (frame: Vec<u8>)
    ensures
        frame@ == nonce@ + body@ + tag@,
        frame@.len() == body@.len() + FRAME_OVERHEAD,
        frame@.subrange(0, NONCE_SIZE as int) == nonce@,
        frame@.subrange(NONCE_SIZE as int, frame@.len() - TAG_SIZE) == body@,
        frame@.subrange(frame@.len() - TAG_SIZE, frame@.len() as int) == tag@,
{
    let mut frame: Vec<u8> = Vec::new();
    put_bytes(&mut frame, nonce.as_slice());
    put_bytes(&mut frame, body.as_slice());
    put_bytes(&mut frame, tag.as_slice());
    proof {
        assert(frame@ =~= nonce@ + body@ + tag@);
        assert(frame@.subrange(0, NONCE_SIZE as int) =~= nonce@);
        assert(frame@.subrange(NONCE_SIZE as int, frame@.len() - TAG_SIZE) =~= body@);
        assert(frame@.subrange(frame@.len() - TAG_SIZE, frame@.len() as int) =~= tag@);
    }
    frame
}

/// The form in which a payload goes into an archive. A random nonce is drawn
/// where the archive is encrypted.
pub fn seal(encryption: &Option<Encryption>, payload: Vec<u8>) -> (res: Result<Vec<u8>>)
    ensures
        match res {
            Ok(frame) => {
                &&& sealed(key_of(*encryption), payload@, frame@)
                &&& frame@.len() == payload@.len() + overhead(key_of(*encryption))
                &&& forall|text: Seq<char>| #[trigger]
                    unsealed(key_of(*encryption), frame@, text) == Ok::<Seq<u8>, ErrorView>(
                        payload@,
                    )
            },
            Err(e) => e@ is Crypto && encryption is Some,
        },
{
    match encryption {
        None => Ok(payload),
        Some(enc) => {
            let mut body: Vec<u8> = payload;
            match enc.encrypt(body.as_mut_slice()) {
                Ok((nonce, tag)) => {
                    let frame = assemble(&nonce, &body, &tag);
                    assert(frame@ == sealed_under(enc.key@, nonce@, payload@));
                    Ok(frame)
                },
                Err(e) => Err(e),
            }
        },
    }
}

/// The payload of a frame.
pub fn unseal(encryption: &Option<Encryption>, frame: Vec<u8>, too_small: &'static str) -> (res:
    Result<Vec<u8>>)
    ensures
        match unsealed(key_of(*encryption), frame@, too_small@) {
            Ok(payload) => res matches Ok(x) && x@ == payload,
            Err(e) => res matches Err(x) && x@ == e,
        },
{
    match encryption {
        None => Ok(frame),
        Some(enc) => {
            let len: usize = frame.len();
            if len < FRAME_OVERHEAD {
                return Err(Error::Corrupt(too_small));
            }
            let end: usize = len - TAG_SIZE;
            let nonce = array_at::<NONCE_SIZE>(frame.as_slice(), 0);
            let tag = array_at::<TAG_SIZE>(frame.as_slice(), end);
            let mut body: Vec<u8> = copy_range(frame.as_slice(), NONCE_SIZE, end);
            match enc.decrypt(&nonce, &tag, body.as_mut_slice()) {
                Ok(_) => Ok(body),
                Err(e) => Err(e),
            }
        },
    }
}

/// Without a key a frame is its payload. With one it is the nonce, what the
/// cipher makes of the payload, and the tag.
pub proof fn law_frame_layout(
    enc: Encryption,
    nonce: [u8; NONCE_SIZE],
    payload: Vec<u8>,
    res: Result<Vec<u8>>,
    plain: Result<Vec<u8>>,
    bare: Result<Vec<u8>>,
    text: &'static str,
)
    requires
        call_ensures(seal_with_nonce, (&enc, &nonce, payload), res),
        call_ensures(seal, (&None::<Encryption>, payload), plain),
        call_ensures(unseal, (&None::<Encryption>, payload, text), bare),
    ensures
        plain matches Ok(frame) && frame@ == payload@,
        bare matches Ok(back) && back@ == payload@,
        res is Ok <==> payload@.len() <= 274_877_906_816,
        res matches Ok(frame) ==> {
            let (ciphertext, tag) = crypto::xchacha20poly1305_seal(enc.key@, nonce@, payload@);
            &&& frame@ == nonce@ + ciphertext + tag
            &&& frame@.len() == payload@.len() + 40
        },
{
}

/// A frame that was sealed opens to its payload under the same key, and takes 40
/// bytes more than it where there is a key.
pub proof fn law_sealed_frame_opens(
    encryption: Option<Encryption>,
    payload: Vec<u8>,
    frame: Vec<u8>,
    text: &'static str,
    back: Result<Vec<u8>>,
)
    requires
        call_ensures(seal, (&encryption, payload), Ok(frame)),
        call_ensures(unseal, (&encryption, frame, text), back),
    ensures
        back matches Ok(x) && x@ == payload@,
        frame@.len() == payload@.len() + if encryption is Some {
            40int
        } else {
            0
        },
{
}

/// An encrypted frame opens exactly if it has room for a nonce and a tag, and the
/// cipher opens what stands between them; it opens to what the cipher gives.
pub proof fn law_frame_opens_by_the_cipher(
    enc: Encryption,
    frame: Vec<u8>,
    text: &'static str,
    back: Result<Vec<u8>>,
)
    requires
        call_ensures(unseal, (&Some(enc), frame, text), back),
        frame@.len() <= 274_877_906_856,
    ensures
        frame@.len() < 40 ==> (back matches Err(e) && e@ == ErrorView::Corrupt(text@)),
        frame@.len() >= 40 ==> {
            let end = frame@.len() - 16;
            match crypto::xchacha20poly1305_open(
                enc.key@,
                frame@.subrange(0, 24),
                frame@.subrange(24, end),
                frame@.subrange(end, frame@.len() as int),
            ) {
                Some(payload) => back matches Ok(x) && x@ == payload,
                None => back matches Err(e) && e@ == ErrorView::WrongPasswordOrTampered,
            }
        },
{
}

/// The key of an archive is that of its encryption, all of it.
pub proof fn law_key_of_an_archive(enc: Encryption)
    ensures
        key_of(Some(enc)) == Some(enc.key@),
        key_of(None) is None,
{
}

} // verus!
