//! Checksums and compression, and small adapters that count and hash what
//! flows through them.

use crate::error::{Error, IoFault, Result};
use crate::error;
use crate::format::put_bytes;
use vstd::prelude::*;
use xxhash_rust::xxh3::Xxh3;
use zstd::stream::raw::CParameter;
use zstd::stream::zio::Writer as ZioWriter;

verus! {

pub const DEFAULT_LEVEL: i32 = 3;

/// Log2 of the match window of long-range mode: 128 MB.
pub const LONG_WINDOW_LOG: u32 = 27;

/// How many decoded bytes are asked for at a time.
const CHUNK: usize = 8192;

/// `xxhash_rust::xxh3::Xxh3`, a hasher that is fed piece by piece.
#[verifier::external_type_specification]
#[verifier::external_body]
pub struct ExXxh3(xxhash_rust::xxh3::Xxh3);

/// `zstd::stream::zio::Writer`, what `zstd::stream::Encoder` is made of.
#[verifier::external_type_specification]
#[verifier::external_body]
#[verifier::reject_recursive_types(W)]
#[verifier::reject_recursive_types(D)]
pub struct ExZioWriter<W, D>(ZioWriter<W, D>);

/// `zstd::stream::raw::Encoder`, the compressor below a writer.
#[verifier::external_type_specification]
#[verifier::external_body]
pub struct ExRawEncoder<'a>(zstd::stream::raw::Encoder<'a>);

/// `std::io::BufReader`, through which a decoder reads what it decodes.
#[verifier::external_type_specification]
#[verifier::external_body]
#[verifier::reject_recursive_types(R)]
pub struct ExBufReader<R: ?Sized>(std::io::BufReader<R>);

/// `zstd::stream::read::Decoder`, which decodes as it is read from.
#[verifier::external_type_specification]
#[verifier::external_body]
#[verifier::reject_recursive_types(R)]
pub struct ExDecoder<'a, R>(zstd::stream::read::Decoder<'a, R>);

/// Compresses what is written to it into a vector.
pub type FrameEncoder = ZioWriter<Vec<u8>, zstd::stream::raw::Encoder<'static>>;

/// Decodes a compressed slice piece by piece.
pub type FrameDecoder<'a> = zstd::stream::read::Decoder<'static, std::io::BufReader<&'a [u8]>>;

/// The 64-bit XXH3 hash of `input`.
pub uninterp spec fn xxh3_of(input: Seq<u8>) -> u64;

/// Everything that a hasher has been fed.
pub uninterp spec fn hashed_input(hasher: Xxh3) -> Seq<u8>;

/// Everything that an encoder has been given to compress.
pub uninterp spec fn encoder_input(encoder: FrameEncoder) -> Seq<u8>;

/// The level, the match window, the long-distance matching and the number of
/// workers that an encoder was set to.
pub uninterp spec fn encoder_settings(encoder: FrameEncoder) -> (i32, Option<u32>, bool, u32);

/// Whether `frame` is what an encoder with these settings makes of `input`.
pub uninterp spec fn zstd_frame(
    settings: (i32, Option<u32>, bool, u32),
    input: Seq<u8>,
    frame: Seq<u8>,
) -> bool;

/// What `input` decompresses to when all of it is decompressed at once, if it
/// does.
pub uninterp spec fn zstd_decoded(input: Seq<u8>) -> Option<Seq<u8>>;

/// What a decoder that was begun on a frame of an encoder is still to yield;
/// nothing is said of one that was begun on other data.
pub uninterp spec fn decoder_rest(decoder: FrameDecoder<'_>) -> Option<Seq<u8>>;

/// Whether `frame` is what some encoder makes of `input`.
pub open spec fn encoded(input: Seq<u8>, frame: Seq<u8>) -> bool {
    exists|settings: (i32, Option<u32>, bool, u32)| #[trigger] zstd_frame(settings, input, frame)
}

/// One setting of an encoder.
pub enum EncoderParameter {
    WindowLog(u32),
    LongDistanceMatching(bool),
    Workers(u32),
}

/// Settings with one of them changed.
pub open spec fn with_parameter(
    settings: (i32, Option<u32>, bool, u32),
    parameter: EncoderParameter,
) -> (i32, Option<u32>, bool, u32) {
    match parameter {
        EncoderParameter::WindowLog(log) => (settings.0, Some(log), settings.2, settings.3),
        EncoderParameter::LongDistanceMatching(on) => (settings.0, settings.1, on, settings.3),
        EncoderParameter::Workers(count) => (settings.0, settings.1, settings.2, count),
    }
}

/// Whether an encoder that was given `input` takes a setting without fail.
pub open spec fn settable(input: Seq<u8>, parameter: EncoderParameter) -> bool {
    &&& input.len() == 0
    &&& parameter matches EncoderParameter::WindowLog(log) ==> log >= 10
}

/// `xxhash_rust::xxh3::xxh3_64`: the hash of a whole slice.
#[verifier::external_body]
pub(crate) fn xxh3(input: &[u8]) -> (hash: u64)
    ensures
        hash == xxh3_of(input@),
{
    xxhash_rust::xxh3::xxh3_64(input)
}

/// `Xxh3::new`: a hasher that has been fed nothing.
#[verifier::external_body]
pub(crate) fn hasher_new() -> (hasher: Xxh3)
    ensures
        hashed_input(hasher) == Seq::<u8>::empty(),
{
    Xxh3::new()
}

/// `Xxh3::update`: feeds one more piece.
#[verifier::external_body]
pub(crate) fn hasher_update(hasher: &mut Xxh3, piece: &[u8])
    ensures
        hashed_input(*final(hasher)) == hashed_input(*old(hasher)) + piece@,
{
    hasher.update(piece)
}

/// `Xxh3::digest`: the hash of all the pieces, which is the hash of the whole.
#[verifier::external_body]
pub(crate) fn hasher_digest(hasher: &Xxh3) -> (hash: u64)
    ensures
        hash == xxh3_of(hashed_input(*hasher)),
{
    hasher.digest()
}

/// `zstd::stream::raw::Encoder::new` under a `zio::Writer`, as in
/// `zstd::stream::Encoder::new`: an encoder with nothing in it yet. A level
/// beyond the supported range is clamped, and an empty dictionary is not
/// looked at, so it succeeds.
#[verifier::external_body]
pub(crate) fn encoder_new(level: i32) -> (res: core::result::Result<FrameEncoder, std::io::Error>)
    ensures
        res is Ok,
        res matches Ok(encoder) ==> encoder_input(encoder) == Seq::<u8>::empty()
            && encoder_settings(encoder) == (level, None::<u32>, false, 0u32),
{
    zstd::stream::raw::Encoder::new(level).map(
        |operation| ZioWriter::new(Vec::new(), operation),
    )
}

/// `zstd::stream::raw::Encoder::set_parameter`, as in
/// `zstd::stream::Encoder::set_parameter` and `multithread`: changes one
/// setting and leaves what has been written alone. It succeeds before anything
/// was written: a window from 1 KiB to 128 MiB is within the bounds, and the
/// number of workers is clamped.
#[verifier::external_body]
pub(crate) fn encoder_set(
    encoder: &mut FrameEncoder,
    parameter: EncoderParameter,
) -> (res: core::result::Result<(), std::io::Error>)
    requires
        parameter matches EncoderParameter::WindowLog(log) ==> log <= LONG_WINDOW_LOG,
    ensures
        settable(encoder_input(*old(encoder)), parameter) ==> res is Ok,
        res is Ok ==> encoder_input(*final(encoder)) == encoder_input(*old(encoder))
            && encoder_settings(*final(encoder)) == with_parameter(
            encoder_settings(*old(encoder)),
            parameter,
        ),
{
    encoder.operation_mut().set_parameter(
        match parameter {
            EncoderParameter::WindowLog(log) => CParameter::WindowLog(log),
            EncoderParameter::LongDistanceMatching(on) => CParameter::EnableLongDistanceMatching(
                on,
            ),
            EncoderParameter::Workers(count) => CParameter::NbWorkers(count),
        },
    )
}

/// `write_all` on the encoder: all of `data` is taken in, behind what was
/// written before, or an error comes back. When it comes, and what the encoder
/// then holds, is left open.
#[verifier::external_body]
pub(crate) fn encoder_write(encoder: &mut FrameEncoder, data: &[u8]) -> (res: core::result::Result<
    (),
    std::io::Error,
>)
    ensures
        res is Ok ==> encoder_input(*final(encoder)) == encoder_input(*old(encoder)) + data@
            && encoder_settings(*final(encoder)) == encoder_settings(*old(encoder)),
{
    std::io::Write::write_all(encoder, data)
}

/// `zstd::stream::Encoder::finish`: the compressed frame. It is not empty, and
/// it decompresses to what was written. No setting of the encoder asks for a
/// window that a decoder refuses by default.
#[verifier::external_body]
pub(crate) fn encoder_finish(encoder: FrameEncoder) -> (res: core::result::Result<
    Vec<u8>,
    std::io::Error,
>)
    ensures
        res matches Ok(frame) ==> frame@.len() > 0 && zstd_decoded(frame@) == Some(
            encoder_input(encoder),
        ) && zstd_frame(encoder_settings(encoder), encoder_input(encoder), frame@),
{
    zstd::stream::write::Encoder::with_writer(encoder).finish()
}

/// `zstd::stream::decode_all`: the whole of `input` decompressed, where all of
/// it decompresses, and an error where it does not.
#[verifier::external_body]
pub(crate) fn decode_all(input: &[u8]) -> (res: core::result::Result<Vec<u8>, std::io::Error>)
    ensures
        res is Ok <==> zstd_decoded(input@) is Some,
        res matches Ok(data) ==> zstd_decoded(input@) == Some(data@),
{
    zstd::stream::decode_all(input)
}

/// `zstd::stream::read::Decoder::new`: a decoder at the start of `input`. It
/// sets up a fresh context with an empty dictionary and reads nothing yet, so it
/// succeeds. It is to yield what an encoder was given, where an encoder made
/// `input`; of other data, what it yields may depend on how much is asked for at
/// a time, and nothing is promised.
#[verifier::external_body]
pub(crate) fn decoder_new(input: &[u8]) -> (res: core::result::Result<
    FrameDecoder<'_>,
    std::io::Error,
>)
    ensures
        res is Ok,
        res matches Ok(decoder) ==> forall|
            settings: (i32, Option<u32>, bool, u32),
            content: Seq<u8>,
        | #[trigger]
            zstd_frame(settings, content, input@) ==> decoder_rest(decoder) == Some(content),
{
    zstd::stream::read::Decoder::new(input)
}

/// `read` on the decoder, into a buffer of `max` bytes: at most that many. Of a
/// frame of an encoder it is the next piece, which is empty at the end alone. Of
/// other data nothing more is promised.
#[verifier::external_body]
pub(crate) fn decoder_read(decoder: &mut FrameDecoder<'_>, max: usize) -> (res:
    core::result::Result<Vec<u8>, std::io::Error>)
    requires
        max > 0,
    ensures
        res matches Ok(piece) ==> piece@.len() <= max,
        decoder_rest(*old(decoder)) matches Some(rest) ==> (res matches Ok(piece) && {
            &&& piece@.len() <= rest.len()
            &&& piece@ == rest.take(piece@.len() as int)
            &&& piece@.len() == 0 ==> rest.len() == 0
            &&& decoder_rest(*final(decoder)) == Some(rest.skip(piece@.len() as int))
        }),
{
    let mut piece = vec![0u8; max];
    std::io::Read::read(decoder, &mut piece).map(
        |n|
            {
                piece.truncate(n);
                piece
            },
    )
}

/// Passes a reader on, and hashes and counts every byte that it yields.
pub struct HashingReader<R> {
    pub inner: R,
    pub hasher: Xxh3,
    pub bytes_read: u64,
}

impl<R> HashingReader<R> {
    /// Everything that was read so far.
    pub open spec fn seen(self) -> Seq<u8> {
        hashed_input(self.hasher)
    }

    /// Whether the count fits what was hashed.
    pub open spec fn wf(self) -> bool {
        self.bytes_read == self.seen().len()
    }

    /// Nothing read yet.
    pub fn new(inner: R) -> (r: Self)
        ensures
            r.wf(),
            r.inner == inner,
            r.seen() == Seq::<u8>::empty(),
    {
        HashingReader { inner, hasher: hasher_new(), bytes_read: 0 }
    }

    /// Takes note of one more piece that `inner` yielded.
    pub fn absorb(&mut self, piece: &[u8])
        requires
            old(self).wf(),
            old(self).bytes_read + piece@.len() <= u64::MAX,
        ensures
            final(self).wf(),
            final(self).inner == old(self).inner,
            final(self).seen() == old(self).seen() + piece@,
    {
        hasher_update(&mut self.hasher, piece);
        self.bytes_read = self.bytes_read + piece.len() as u64;
    }

    /// How many bytes were read, and their hash.
    pub fn finish(self) -> (res: (u64, u64))
        requires
            self.wf(),
        ensures
            res.0 == self.seen().len(),
            res.1 == xxh3_of(self.seen()),
    {
        (self.bytes_read, hasher_digest(&self.hasher))
    }
}

/// The smaller of two numbers.
pub open spec fn least(a: nat, b: nat) -> nat {
    if a <= b {
        a
    } else {
        b
    }
}

/// Lets `count` bytes of the decoded data go by, or all of it if there is less.
pub(crate) fn skip_decoded(decoder: &mut FrameDecoder<'_>, count: u64) -> (res: Result<()>)
    ensures
        match decoder_rest(*old(decoder)) {
            Some(rest) => res is Ok && decoder_rest(*final(decoder)) == Some(
                rest.skip(least(count as nat, rest.len()) as int),
            ),
            None => res matches Err(e) ==> e@ == error::source_fault(),
        },
{
    let mut left: u64 = count;
    let mut ended: bool = false;
    let ghost before = decoder_rest(*decoder);
    proof {
        if let Some(rest) = before {
            assert(rest.skip(0) =~= rest);
        }
    }
    while left > 0 && !ended
        invariant
            left <= count,
            before == decoder_rest(*old(decoder)),
            match before {
                Some(rest) => {
                    &&& count - left <= rest.len()
                    &&& decoder_rest(*decoder) == Some(rest.skip(count - left))
                    &&& ended ==> count - left == rest.len()
                },
                None => true,
            },
        decreases left, (if ended { 0int } else { 1int }),
    {
        let want: usize = if left > CHUNK as u64 {
            CHUNK
        } else {
            left as usize
        };
        let ghost gone = count - left;
        match decoder_read(decoder, want) {
            Ok(piece) => {
                if piece.len() == 0 {
                    ended = true;
                } else {
                    left = left - piece.len() as u64;
                }
                proof {
                    if let Some(rest) = before {
                        assert(rest.skip(gone).skip(piece@.len() as int) =~= rest.skip(
                            gone + piece@.len(),
                        ));
                    }
                }
            },
            Err(e) => {
                return Err(Error::Io(IoFault::Source(e)));
            },
        }
    }
    Ok(())
}

/// Appends the next `limit` bytes of the decoded data to `out`, or all of it if
/// there is less, and hashes and counts them on the way.
pub(crate) fn copy_decoded(
    hashing: &mut HashingReader<FrameDecoder<'_>>,
    limit: u64,
    out: &mut Vec<u8>,
) -> (res: Result<()>)
    requires
        old(hashing).wf(),
        old(hashing).seen().len() == 0,
    ensures
        final(hashing).wf(),
        final(hashing).seen().len() <= limit,
        final(out)@ == old(out)@ + final(hashing).seen(),
        match decoder_rest(old(hashing).inner) {
            Some(rest) => res is Ok && final(hashing).seen() == rest.take(
                least(limit as nat, rest.len()) as int,
            ),
            None => res matches Err(e) ==> e@ == error::source_fault(),
        },
{
    let mut left: u64 = limit;
    let mut ended: bool = false;
    let ghost before = decoder_rest(hashing.inner);
    proof {
        assert(out@ =~= old(out)@ + hashing.seen());
        if let Some(rest) = before {
            assert(rest.skip(0) =~= rest);
            assert(rest.take(0) =~= hashing.seen());
        }
    }
    while left > 0 && !ended
        invariant
            left <= limit,
            hashing.wf(),
            hashing.seen().len() == limit - left,
            before == decoder_rest(old(hashing).inner),
            out@ == old(out)@ + hashing.seen(),
            match before {
                Some(rest) => {
                    &&& limit - left <= rest.len()
                    &&& hashing.seen() == rest.take(limit - left)
                    &&& decoder_rest(hashing.inner) == Some(rest.skip(limit - left))
                    &&& ended ==> limit - left == rest.len()
                },
                None => true,
            },
        decreases left, (if ended { 0int } else { 1int }),
    {
        let want: usize = if left > CHUNK as u64 {
            CHUNK
        } else {
            left as usize
        };
        let ghost gone = limit - left;
        let ghost seen = hashing.seen();
        let ghost held = out@;
        match decoder_read(&mut hashing.inner, want) {
            Ok(piece) => {
                if piece.len() == 0 {
                    ended = true;
                } else {
                    hashing.absorb(piece.as_slice());
                    put_bytes(out, piece.as_slice());
                    left = left - piece.len() as u64;
                    proof {
                        assert(held + piece@ =~= old(out)@ + (seen + piece@));
                        if let Some(rest) = before {
                            assert(rest.take(gone) + rest.skip(gone).take(piece@.len() as int)
                                =~= rest.take(gone + piece@.len()));
                        }
                    }
                }
                proof {
                    if let Some(rest) = before {
                        assert(rest.skip(gone).skip(piece@.len() as int) =~= rest.skip(
                            gone + piece@.len(),
                        ));
                    }
                }
            },
            Err(e) => {
                return Err(Error::Io(IoFault::Source(e)));
            },
        }
    }
    Ok(())
}

/// Passes a writer on, and counts every byte that goes into it.
pub struct CountingWriter<W> {
    pub inner: W,
    pub bytes_written: u64,
}

impl<W> CountingWriter<W> {
    /// Nothing written yet.
    pub fn new(inner: W) -> (w: Self)
        ensures
            w.inner == inner,
            w.bytes_written == 0,
    {
        CountingWriter { inner, bytes_written: 0 }
    }

    /// The writer below, with all that went into it.
    pub fn into_inner(self) -> (inner: W)
        ensures
            inner == self.inner,
    {
        self.inner
    }

    /// Takes note of `count` more bytes that `inner` took.
    pub fn record(&mut self, count: usize)
        requires
            old(self).bytes_written + count <= u64::MAX,
        ensures
            final(self).inner == old(self).inner,
            final(self).bytes_written == old(self).bytes_written + count,
    {
        self.bytes_written = self.bytes_written + count as u64;
    }
}

impl<W> CountingWriter<W> {
    /// Takes note of what `inner` answered to a write, and hands the answer on:
    /// the bytes that were accepted are counted, and a failure counts nothing.
    pub fn answered(
        &mut self,
        answer: core::result::Result<usize, std::io::Error>,
    ) -> (res: core::result::Result<usize, std::io::Error>)
        requires
            old(self).bytes_written + accepted(answer) <= u64::MAX,
        ensures
            res == answer,
            final(self).inner == old(self).inner,
            final(self).bytes_written == old(self).bytes_written + accepted(answer),
    {
        match answer {
            Ok(count) => {
                self.record(count);
                Ok(count)
            },
            Err(e) => Err(e),
        }
    }
}

/// How many bytes a writer took, by its answer.
pub open spec fn accepted(answer: core::result::Result<usize, std::io::Error>) -> nat {
    match answer {
        Ok(count) => count as nat,
        Err(_) => 0,
    }
}

/// How many bytes a writer took, by all of its answers.
pub open spec fn accepted_in_all(answers: Seq<core::result::Result<usize, std::io::Error>>) -> nat
    decreases answers.len(),
{
    if answers.len() == 0 {
        0
    } else {
        accepted_in_all(answers.drop_last()) + accepted(answers.last())
    }
}

/// Where the count of a writer stands after each of its answers.
pub open spec fn counts(
    start: nat,
    answers: Seq<core::result::Result<usize, std::io::Error>>,
) -> nat
    decreases answers.len(),
{
    if answers.len() == 0 {
        start
    } else {
        counts(start, answers.drop_last()) + accepted(answers.last())
    }
}

/// The count grows by exactly the number of bytes that the writer below has
/// accepted; from a fresh writer on it is that number.
pub proof fn law_counts_what_was_accepted(
    start: nat,
    answers: Seq<core::result::Result<usize, std::io::Error>>,
)
    ensures
        counts(start, answers) == start + accepted_in_all(answers),
    decreases answers.len(),
{
    if answers.len() > 0 {
        law_counts_what_was_accepted(start, answers.drop_last());
    }
}

impl CountingWriter<Vec<u8>> {
    /// Appends all of `buf`, unless the count would outgrow 64 bits.
    pub fn write(&mut self, buf: &[u8]) -> (res: Result<usize>)
        ensures
            if old(self).bytes_written + buf@.len() <= u64::MAX {
                &&& (res matches Ok(n) && n == buf@.len())
                &&& final(self).inner@ == old(self).inner@ + buf@
                &&& final(self).bytes_written == old(self).bytes_written + buf@.len()
            } else {
                &&& (res matches Err(e) && e@ == error::too_large())
                &&& *final(self) == *old(self)
            },
    {
        let count: usize = buf.len();
        if u64::MAX - self.bytes_written < count as u64 {
            return Err(Error::Io(IoFault::TooLarge));
        }
        put_bytes(&mut self.inner, buf);
        self.record(count);
        Ok(count)
    }
}

/// The pieces, one behind the other.
pub open spec fn strung<'a>(pieces: Seq<&'a [u8]>) -> Seq<u8>
    decreases pieces.len(),
{
    if pieces.len() == 0 {
        Seq::empty()
    } else {
        strung(pieces.drop_last()) + pieces.last()@
    }
}

/// Whatever the pieces in which bytes go through a hashing reader, it counts all
/// of them, and its hash is that of all of them in their order.
pub proof fn law_hash_of_all_pieces<'a, R>(
    inner: R,
    first: HashingReader<R>,
    calls: Seq<&mut HashingReader<R>>,
    pieces: Seq<&'a [u8]>,
    last: HashingReader<R>,
    res: (u64, u64),
)
    requires
        call_ensures(HashingReader::<R>::new, (inner,), first),
        calls.len() == pieces.len(),
        calls.len() > 0,
        *calls[0] == first,
        forall|k: int| #![trigger calls[k]]
            0 <= k < pieces.len() ==> call_ensures(
                HashingReader::<R>::absorb,
                (calls[k], pieces[k]),
                (),
            ) && *final(calls[k]) == if k + 1 < calls.len() {
                *calls[k + 1]
            } else {
                last
            },
        call_ensures(HashingReader::<R>::finish, (last,), res),
    ensures
        res.0 == strung(pieces).len(),
        res.1 == xxh3_of(strung(pieces)),
{
    lemma_seen_pieces(first, calls, pieces, pieces.len() as int);
    assert(pieces.take(pieces.len() as int) =~= pieces);
}

/// What a hashing reader has seen is what went through it.
proof fn lemma_seen_pieces<'a, R>(
    first: HashingReader<R>,
    calls: Seq<&mut HashingReader<R>>,
    pieces: Seq<&'a [u8]>,
    count: int,
)
    requires
        first.seen().len() == 0,
        calls.len() == pieces.len(),
        *calls[0] == first,
        0 < count <= calls.len(),
        forall|k: int| #![trigger calls[k]]
            0 <= k < pieces.len() ==> call_ensures(
                HashingReader::<R>::absorb,
                (calls[k], pieces[k]),
                (),
            ) && (k + 1 < calls.len() ==> *final(calls[k]) == *calls[k + 1]),
    ensures
        final(calls[count - 1]).seen() == strung(pieces.take(count)),
    decreases count,
{
    let n = count - 1;
    assert(pieces.take(count).drop_last() =~= pieces.take(n));
    assert(pieces.take(count).last() == pieces[n]);
    assert(call_ensures(HashingReader::<R>::absorb, (calls[n], pieces[n]), ()));
    assert(final(calls[n]).seen() == calls[n].seen() + pieces[n]@);
    if n > 0 {
        lemma_seen_pieces(first, calls, pieces, n);
        assert(call_ensures(HashingReader::<R>::absorb, (calls[n - 1], pieces[n - 1]), ()));
        assert(*final(calls[n - 1]) == *calls[n]);
    } else {
        assert(first.seen() =~= Seq::empty());
        assert(pieces.take(0).len() == 0);
        assert(strung(pieces.take(0)) == Seq::<u8>::empty());
    }
    assert(strung(pieces.take(count)) == strung(pieces.take(n)) + pieces[n]@);
}

/// A counting writer appends what is written, all of it, and counts it; where the
/// count would not fit it does neither.
pub proof fn law_counted_write(buf: &[u8])
    ensures
        forall|w: &mut CountingWriter<Vec<u8>>, res: Result<usize>| #[trigger]
            call_ensures(CountingWriter::<Vec<u8>>::write, (w, buf), res) ==> {
                &&& res is Ok <==> w.bytes_written + buf@.len() <= u64::MAX
                &&& res matches Ok(n) ==> {
                    &&& n == buf@.len()
                    &&& final(w).inner@ == w.inner@ + buf@
                    &&& final(w).bytes_written == w.bytes_written + buf@.len()
                }
                &&& res matches Err(e) ==> e@ == error::too_large() && *final(w) == *w
            },
{
}

/// What another writer accepted is counted, its answer is handed on as it is, and
/// a failure counts nothing.
pub proof fn law_answers_are_counted<W>(
    n: usize,
    answer: core::result::Result<usize, std::io::Error>,
)
    ensures
        forall|
            w: &mut CountingWriter<W>,
            res: core::result::Result<usize, std::io::Error>,
        | #[trigger]
            call_ensures(CountingWriter::<W>::answered, (w, answer), res) ==> {
                &&& res == answer
                &&& final(w).inner == w.inner
                &&& answer matches Ok(count) ==> final(w).bytes_written == w.bytes_written + count
                &&& answer is Err ==> final(w).bytes_written == w.bytes_written
            },
        forall|w: &mut CountingWriter<W>| #[trigger]
            call_ensures(CountingWriter::<W>::record, (w, n), ()) ==> final(w).bytes_written
                == w.bytes_written + n && final(w).inner == w.inner,
{
}

/// A counting writer starts with nothing counted and gives back what it was made
/// of.
pub proof fn law_counting_writer_wraps<W>(
    inner: W,
    w: CountingWriter<W>,
    later: CountingWriter<W>,
    back: W,
)
    requires
        call_ensures(CountingWriter::<W>::new, (inner,), w),
        call_ensures(CountingWriter::<W>::into_inner, (later,), back),
    ensures
        w.inner == inner,
        w.bytes_written == 0,
        back == later.inner,
{
}

} // verus!
