//! Streaming adapters that encrypt bytes written to a sink and decrypt bytes
//! read from a source, using AES-256 in CBC mode with PKCS padding.
//!
//! The wire format is the 16-byte initialization vector in the clear,
//! followed by the ciphertext, with no further framing and no integrity tag.
//! A matching passphrase on the decrypting side is required; a wrong
//! passphrase is indistinguishable from a corrupted stream.
//!
//! One peculiarity of the cipher engine is kept, as both sides share it: an
//! empty plaintext is never fed to the cipher and produces no ciphertext at
//! all, so its stream is the bare 16-byte IV — where a padding scheme applied
//! unconditionally would emit one full padding block.

use vstd::prelude::*;

use crate::bytestream::{Sink, Source};
use crate::cipher::{
    cbc_decryptor_new, cbc_decryptor_step, cbc_encrypt, cbc_encryptor_new, cbc_encryptor_step,
    dec_fed, dec_iv, dec_key, dec_out, dec_phase, enc_fed, enc_iv, enc_key, enc_phase, enc_sent,
    hash_string, random_iv, sha3_256_of, CbcDecryptor, CbcEncryptor,
};
use crate::error::CryptoError;
use crate::padding::{
    lemma_pad_count_bounds, lemma_prefix_of_padded, lemma_strip_split, padded_of, pkcs_pad,
};

verus! {

/// A prefix of a sequence is a prefix of any extension of it.
proof fn lemma_prefix_concat(a: Seq<u8>, b: Seq<u8>)
    ensures
        a.is_prefix_of(a + b),
{
    assert(a =~= (a + b).take(a.len() as int));
}

/// Being a prefix is transitive.
proof fn lemma_prefix_trans(a: Seq<u8>, b: Seq<u8>, c: Seq<u8>)
    requires
        a.is_prefix_of(b),
        b.is_prefix_of(c),
    ensures
        a.is_prefix_of(c),
{
    assert(a =~= c.take(a.len() as int));
}

/// Write all of `data` to a sink, retrying partial writes.
fn sink_write_all<S: Sink>(writer: &mut S, data: &[u8]) -> (r: Result<(), CryptoError>)
    ensures
        match r {
            Ok(()) => final(writer).sunk() == old(writer).sunk() + data@,
            Err(e) => {
                &&& e == CryptoError::IOError
                &&& old(writer).sunk().is_prefix_of(final(writer).sunk())
            },
        },
{
    let len = data.len();
    let mut i: usize = 0;
    while i < len
        invariant
            i <= len,
            len == data@.len(),
            writer.sunk() == old(writer).sunk() + data@.take(i as int),
        decreases len - i,
    {
        let rest = vstd::slice::slice_subrange(data, i, len);
        match writer.write_some(rest) {
            Ok(n) => {
                proof {
                    assert(old(writer).sunk() + data@.take(i as int) + rest@.take(n as int)
                        =~= old(writer).sunk() + data@.take(i + n as int));
                }
                i = i + n;
            },
            Err(e) => {
                proof {
                    lemma_prefix_concat(old(writer).sunk(), data@.take(i as int));
                }
                return Err(e);
            },
        }
    }
    proof {
        assert(data@.take(len as int) =~= data@);
    }
    Ok(())
}

/// An adapter that encrypts everything written to it and forwards the
/// ciphertext to an underlying sink.
///
/// On construction the adapter writes the initialization vector to the sink
/// in the clear; after that, ciphertext follows as writes come in, staged in
/// a fixed-capacity buffer that is drained to the sink. `finish` must be
/// called to flush the final padding; it is idempotent, and its result must
/// be observed before the sink's contents are considered complete.
pub struct EncryptStream<S: Sink> {
    /// The underlying sink. It is owned exclusively for the stream's
    /// lifetime; take it back once `finish` has succeeded.
    pub writer: S,
    enc: CbcEncryptor,
    write_buf: Vec<u8>,
    finished: bool,
    base: Ghost<Seq<u8>>,
}

impl<S: Sink> EncryptStream<S> {
    /// The cipher key this stream encrypts under.
    pub closed spec fn key(&self) -> Seq<u8> {
        enc_key(self.enc)
    }

    /// The initialization vector of this stream.
    pub closed spec fn iv(&self) -> Seq<u8> {
        enc_iv(self.enc)
    }

    /// All plaintext accepted so far, in order.
    pub closed spec fn plain(&self) -> Seq<u8> {
        enc_fed(self.enc)
    }

    /// What the sink held before this stream started writing.
    pub closed spec fn base(&self) -> Seq<u8> {
        self.base@
    }

    /// Everything this stream has written to the sink: the IV, then the
    /// ciphertext emitted so far.
    pub closed spec fn emitted(&self) -> Seq<u8> {
        self.iv() + enc_sent(self.enc)
    }

    /// Whether `finish` has completed.
    pub closed spec fn is_finished(&self) -> bool {
        self.finished
    }

    /// Everything the underlying sink has accepted.
    pub closed spec fn sink_contents(&self) -> Seq<u8> {
        self.writer.sunk()
    }

    /// The adapter's invariant: the sink holds exactly what it held at
    /// construction plus everything this stream emitted, and once finished,
    /// the emitted ciphertext is the full encryption of the plaintext.
    pub closed spec fn wf(&self) -> bool {
        &&& self.key().len() == 32
        &&& self.iv().len() == 16
        &&& self.write_buf@.len() == 4096
        &&& self.writer.sunk() == self.base@ + self.emitted()
        &&& if self.finished {
            &&& enc_phase(self.enc) == 1
            &&& enc_sent(self.enc) == cbc_encrypt(self.key(), self.iv(), self.plain())
            &&& enc_sent(self.enc).len() == padded_of(self.plain()).len()
        } else {
            enc_phase(self.enc) == 0
        }
    }

    /// Start an encrypting stream over `writer` with the given key and IV.
    /// The IV is written to the sink before any ciphertext.
    pub fn new(key: &[u8], iv: &[u8], writer: S) -> (r: Result<EncryptStream<S>, CryptoError>)
        requires
            key@.len() == 32,
            iv@.len() == 16,
        ensures
            match r {
                Ok(s) => {
                    &&& s.wf()
                    &&& !s.is_finished()
                    &&& s.key() == key@
                    &&& s.iv() == iv@
                    &&& s.plain() == Seq::<u8>::empty()
                    &&& s.base() == writer.sunk()
                    &&& s.sink_contents() == writer.sunk() + iv@
                },
                Err(e) => e == CryptoError::IOError,
            },
    {
        let ghost base = writer.sunk();
        let mut writer = writer;
        match sink_write_all(&mut writer, iv) {
            Ok(()) => {},
            Err(e) => {
                return Err(e);
            },
        }
        let enc = cbc_encryptor_new(key, iv);
        let mut write_buf: Vec<u8> = Vec::new();
        write_buf.resize(4096, 0u8);
        let s = EncryptStream { writer, enc, write_buf, finished: false, base: Ghost(base) };
        proof {
            assert(s.emitted() =~= iv@);
        }
        Ok(s)
    }

    /// Encrypt `data` and forward the resulting ciphertext to the sink. All
    /// of `data` is accepted unless the sink fails; a sink failure aborts
    /// the stream.
    pub fn write(&mut self, data: &[u8]) -> (r: Result<usize, CryptoError>)
        requires
            old(self).wf(),
            !old(self).is_finished(),
        ensures
            match r {
                Ok(n) => {
                    &&& n == data@.len()
                    &&& final(self).wf()
                    &&& !final(self).is_finished()
                    &&& final(self).key() == old(self).key()
                    &&& final(self).iv() == old(self).iv()
                    &&& final(self).base() == old(self).base()
                    &&& final(self).plain() == old(self).plain() + data@
                },
                Err(e) => {
                    &&& e == CryptoError::IOError
                    &&& final(self).key() == old(self).key()
                    &&& final(self).iv() == old(self).iv()
                    &&& final(self).base() == old(self).base()
                    &&& !final(self).is_finished()
                    &&& old(self).plain().is_prefix_of(final(self).plain())
                    &&& old(self).sink_contents().is_prefix_of(final(self).sink_contents())
                },
            },
    {
        let len = data.len();
        let mut consumed_total: usize = 0;
        let mut done = false;
        proof {
            assert(self.base@ + (enc_iv(self.enc) + enc_sent(self.enc)) =~= self.base@ + enc_iv(
                self.enc,
            ) + enc_sent(self.enc));
            assert(old(self).plain() + data@.take(0) =~= old(self).plain());
            assert(old(self).sink_contents() =~= self.writer.sunk().take(
                old(self).sink_contents().len() as int,
            ));
        }
        while !done
            invariant
                consumed_total <= len,
                len == data@.len(),
                self.write_buf@.len() == 4096,
                !self.finished,
                self.base@ == old(self).base@,
                enc_phase(self.enc) == 0,
                enc_key(self.enc) == old(self).key(),
                enc_iv(self.enc) == old(self).iv(),
                enc_fed(self.enc) == old(self).plain() + data@.take(consumed_total as int),
                self.writer.sunk() == self.base@ + enc_iv(self.enc) + enc_sent(self.enc),
                old(self).sink_contents().is_prefix_of(self.writer.sunk()),
                done ==> consumed_total == len,
            decreases (if done { 0int } else { 1int }), len - consumed_total,
        {
            let rest = vstd::slice::slice_subrange(data, consumed_total, len);
            let ghost sent_old = enc_sent(self.enc);
            let (consumed, produced, d) = cbc_encryptor_step(
                &mut self.enc,
                rest,
                &mut self.write_buf,
                0,
                false,
            );
            proof {
                assert(old(self).plain() + data@.take(consumed_total as int) + rest@.take(
                    consumed as int,
                ) =~= old(self).plain() + data@.take(consumed_total + consumed as int));
            }
            consumed_total = consumed_total + consumed;
            let chunk = vstd::slice::slice_subrange(self.write_buf.as_slice(), 0, produced);
            let ghost sunk_before = self.writer.sunk();
            match sink_write_all(&mut self.writer, chunk) {
                Ok(()) => {},
                Err(e) => {
                    proof {
                        lemma_prefix_trans(
                            old(self).sink_contents(),
                            sunk_before,
                            self.writer.sunk(),
                        );
                        lemma_prefix_concat(old(self).plain(), data@.take(consumed_total as int));
                    }
                    return Err(e);
                },
            }
            proof {
                assert(self.base@ + enc_iv(self.enc) + sent_old + chunk@ =~= self.base@ + enc_iv(
                    self.enc,
                ) + (sent_old + chunk@));
                lemma_prefix_concat(sunk_before, chunk@);
                lemma_prefix_trans(old(self).sink_contents(), sunk_before, self.writer.sunk());
            }
            done = d;
        }
        proof {
            assert(data@.take(len as int) =~= data@);
            assert(self.base@ + (enc_iv(self.enc) + enc_sent(self.enc)) =~= self.base@ + enc_iv(
                self.enc,
            ) + enc_sent(self.enc));
        }
        Ok(len)
    }

    /// Finalize the stream: encrypt and flush the buffered remainder plus
    /// padding, exactly once. Calling `finish` again is a no-op that touches
    /// nothing. After a successful finish the sink holds the IV followed by
    /// the complete ciphertext of everything written: whole blocks covering
    /// the plaintext plus its padding, and no ciphertext at all when nothing
    /// was written.
    pub fn finish(&mut self) -> (r: Result<(), CryptoError>)
        requires
            old(self).wf(),
        ensures
            match r {
                Ok(()) => {
                    &&& final(self).wf()
                    &&& final(self).is_finished()
                    &&& final(self).key() == old(self).key()
                    &&& final(self).iv() == old(self).iv()
                    &&& final(self).base() == old(self).base()
                    &&& final(self).plain() == old(self).plain()
                    &&& final(self).emitted() == old(self).iv() + cbc_encrypt(
                        old(self).key(),
                        old(self).iv(),
                        old(self).plain(),
                    )
                    &&& final(self).emitted().len() == 16 + padded_of(old(self).plain()).len()
                    &&& final(self).sink_contents() == old(self).base() + final(self).emitted()
                    &&& (old(self).is_finished() ==> *final(self) == *old(self))
                },
                Err(e) => {
                    &&& e == CryptoError::IOError
                    &&& final(self).key() == old(self).key()
                    &&& final(self).iv() == old(self).iv()
                    &&& final(self).base() == old(self).base()
                    &&& final(self).plain() == old(self).plain()
                    &&& final(self).is_finished() == old(self).is_finished()
                    &&& old(self).sink_contents().is_prefix_of(final(self).sink_contents())
                },
            },
    {
        if self.finished {
            return Ok(());
        }
        let empty: Vec<u8> = Vec::new();
        let ghost sent_old = enc_sent(self.enc);
        let (consumed, produced, done) = cbc_encryptor_step(
            &mut self.enc,
            empty.as_slice(),
            &mut self.write_buf,
            0,
            true,
        );
        proof {
            assert(enc_fed(self.enc) =~= old(self).plain());
        }
        let chunk = vstd::slice::slice_subrange(self.write_buf.as_slice(), 0, produced);
        let ghost sunk_before = self.writer.sunk();
        match sink_write_all(&mut self.writer, chunk) {
            Ok(()) => {},
            Err(e) => {
                return Err(e);
            },
        }
        proof {
            assert(self.base@ + (enc_iv(self.enc) + sent_old) + chunk@ =~= self.base@ + (enc_iv(
                self.enc,
            ) + (sent_old + chunk@)));
        }
        self.finished = true;
        Ok(())
    }

    /// Give the underlying sink back, consuming the stream. Call this after
    /// `finish` has succeeded; a stream dropped without finishing leaves a
    /// truncated, unpaddable ciphertext in the sink.
    pub fn into_writer(self) -> (w: S)
        ensures
            w.sunk() == self.sink_contents(),
    {
        let EncryptStream { writer, enc, write_buf, finished, base } = self;
        writer
    }

    /// Forward a flush to the underlying sink. Flushing is an I/O concern:
    /// it does not finalize the cipher and emits no padding.
    pub fn flush(&mut self) -> (r: Result<(), CryptoError>)
        requires
            old(self).wf(),
        ensures
            final(self).wf(),
            final(self).key() == old(self).key(),
            final(self).iv() == old(self).iv(),
            final(self).base() == old(self).base(),
            final(self).plain() == old(self).plain(),
            final(self).is_finished() == old(self).is_finished(),
            final(self).emitted() == old(self).emitted(),
            final(self).sink_contents() == old(self).sink_contents(),
            r matches Err(e) ==> e == CryptoError::IOError,
    {
        self.writer.flush()
    }
}

/// Append the first `n` bytes of `src` to `dst`.
fn vec_append_prefix(dst: &mut Vec<u8>, src: &Vec<u8>, n: usize)
    requires
        n <= src@.len(),
    ensures
        final(dst)@ == old(dst)@ + src@.take(n as int),
{
    let mut i: usize = 0;
    proof {
        assert(old(dst)@ + src@.take(0) =~= old(dst)@);
    }
    while i < n
        invariant
            i <= n,
            n <= src@.len(),
            dst@ == old(dst)@ + src@.take(i as int),
        decreases n - i,
    {
        dst.push(src[i]);
        i = i + 1;
        proof {
            assert(old(dst)@ + src@.take(i - 1) + seq![src@[i - 1]] =~= old(dst)@ + src@.take(
                i as int,
            ));
        }
    }
}

/// An adapter that pulls ciphertext from an underlying source and hands out
/// the decrypted plaintext.
///
/// On construction the adapter reads the 16-byte initialization vector from
/// the source; after that, `read` pulls ciphertext into a fixed-capacity
/// staging buffer, feeds it to the raw CBC cipher, and hands out plaintext
/// through a staging buffer of its own. When the source is exhausted the
/// cipher is finalized exactly once and the PKCS padding is validated and
/// stripped here, in verified code; `finish` drains the rest of the stream
/// and surfaces any padding failure.
pub struct DecryptStream<R: Source> {
    /// The underlying source. It is owned exclusively for the stream's
    /// lifetime.
    pub reader: R,
    dec: CbcDecryptor,
    read_buf: Vec<u8>,
    pending: Vec<u8>,
    served: Ghost<Seq<u8>>,
    eof_seen: bool,
    finalized: bool,
}

impl<R: Source> DecryptStream<R> {
    /// The cipher key this stream decrypts under.
    pub closed spec fn key(&self) -> Seq<u8> {
        dec_key(self.dec)
    }

    /// The initialization vector read from the source.
    pub closed spec fn iv(&self) -> Seq<u8> {
        dec_iv(self.dec)
    }

    /// All plaintext handed out by `read` so far, in order.
    pub closed spec fn delivered(&self) -> Seq<u8> {
        self.served@
    }

    /// All plaintext recovered so far: what `read` has handed out, then
    /// what is buffered awaiting the next read.
    pub closed spec fn produced(&self) -> Seq<u8> {
        self.served@ + self.pending@
    }

    /// The complete ciphertext of this stream (after the IV): what has been
    /// fed to the cipher, what is staged, and what the source still holds.
    /// It is unchanged by `read` and `finish`.
    pub closed spec fn cipher(&self) -> Seq<u8> {
        dec_fed(self.dec) + self.read_buf@ + self.reader.avail()
    }

    /// Whether the stream has been fully decrypted, its padding validated
    /// and stripped.
    pub closed spec fn is_finished(&self) -> bool {
        self.finalized
    }

    /// The adapter's invariant. Beside bookkeeping, it carries the two
    /// facts that make the contracts work: until finalization, what the raw
    /// cipher has emitted is a proper prefix of the padded plaintext of any
    /// valid stream with this ciphertext; after it, the recovered plaintext
    /// is the whole plaintext of any such stream.
    pub closed spec fn wf(&self) -> bool {
        &&& self.key().len() == 32
        &&& self.iv().len() == 16
        &&& self.read_buf@.len() <= 4096
        &&& (self.eof_seen ==> self.reader.avail().len() == 0)
        &&& (dec_phase(self.dec) == 0 || dec_phase(self.dec) == 1)
        &&& (dec_phase(self.dec) == 1 ==> self.eof_seen && self.read_buf@.len() == 0)
        &&& self.served@.len() + self.pending@.len() <= dec_fed(self.dec).len()
        &&& if self.finalized {
            &&& dec_phase(self.dec) == 1
            &&& self.eof_seen
            &&& self.read_buf@.len() == 0
            &&& (forall|p: Seq<u8>|
                self.cipher() == #[trigger] cbc_encrypt(self.key(), self.iv(), p)
                    ==> self.produced() == p)
        } else {
            &&& self.served@ + self.pending@ == dec_out(self.dec)
            &&& (forall|p: Seq<u8>|
                self.cipher() == #[trigger] cbc_encrypt(self.key(), self.iv(), p) ==> {
                    &&& dec_out(self.dec).is_prefix_of(padded_of(p))
                    &&& (dec_out(self.dec).len() + 16 <= padded_of(p).len() || dec_out(
                        self.dec,
                    ).len() == 0)
                })
        }
    }

    /// Start a decrypting stream over `reader` with the given key. The first
    /// 16 bytes of the source are consumed as the initialization vector;
    /// a source with fewer than 16 bytes is a truncated stream.
    pub fn new(key: &[u8], mut reader: R) -> (r: Result<DecryptStream<R>, CryptoError>)
        requires
            key@.len() == 32,
        ensures
            match r {
                Ok(s) => {
                    &&& s.wf()
                    &&& !s.is_finished()
                    &&& s.key() == key@
                    &&& reader.avail().len() >= 16
                    &&& s.iv() == reader.avail().take(16)
                    &&& s.cipher() == reader.avail().skip(16)
                    &&& s.produced() == Seq::<u8>::empty()
                    &&& s.delivered() == Seq::<u8>::empty()
                },
                Err(e) => {
                    &&& (e == CryptoError::TruncatedStream || e == CryptoError::IOError)
                    &&& (e == CryptoError::TruncatedStream ==> reader.avail().len() < 16)
                },
            },
    {
        let ghost orig = reader.avail();
        let mut ivv: Vec<u8> = Vec::new();
        let mut failed: Option<CryptoError> = None;
        while ivv.len() < 16 && failed.is_none()
            invariant
                ivv@.len() <= 16,
                ivv@.len() <= orig.len(),
                ivv@ == orig.take(ivv@.len() as int),
                reader.avail() == orig.skip(ivv@.len() as int),
                match failed {
                    Some(e) => {
                        &&& (e == CryptoError::TruncatedStream || e == CryptoError::IOError)
                        &&& (e == CryptoError::TruncatedStream ==> orig.len() < 16)
                    },
                    None => true,
                },
            decreases 16 - ivv@.len(), (if failed.is_none() { 1int } else { 0int }),
        {
            let want = 16 - ivv.len();
            match reader.read_some(want) {
                Ok(mut got) => {
                    if got.len() == 0 {
                        proof {
                            assert(orig.skip(ivv@.len() as int).len() == 0);
                            assert(orig.skip(ivv@.len() as int).len() == orig.len()
                                - ivv@.len());
                        }
                        failed = Some(CryptoError::TruncatedStream);
                    } else {
                        let ghost a = ivv@.len() as int;
                        let ghost g = got@.len() as int;
                        ivv.append(&mut got);
                        proof {
                            assert(orig.take(a) + orig.skip(a).take(g) =~= orig.take(a + g));
                            assert(orig.skip(a).skip(g) =~= orig.skip(a + g));
                        }
                    }
                },
                Err(e) => {
                    failed = Some(e);
                },
            }
        }
        match failed {
            Some(e) => {
                return Err(e);
            },
            None => {},
        }
        let dec = cbc_decryptor_new(key, ivv.as_slice());
        let s = DecryptStream {
            reader,
            dec,
            read_buf: Vec::new(),
            pending: Vec::new(),
            served: Ghost(Seq::empty()),
            eof_seen: false,
            finalized: false,
        };
        proof {
            assert(s.cipher() =~= orig.skip(16));
            assert(s.produced() =~= Seq::<u8>::empty());
        }
        Ok(s)
    }

    /// Decrypt and return up to `want` bytes of plaintext, pulling
    /// ciphertext from the source as needed. A result shorter than `want`
    /// means the stream ended, was finalized, and everything recovered has
    /// been handed out. The padding is validated and stripped only at the
    /// end of the source; the padding errors are raised only on streams
    /// that are not the encryption of any plaintext under this key and IV.
    pub fn read(&mut self, want: usize) -> (r: Result<Vec<u8>, CryptoError>)
        requires
            old(self).wf(),
        ensures
            match r {
                Ok(v) => {
                    &&& final(self).wf()
                    &&& final(self).key() == old(self).key()
                    &&& final(self).iv() == old(self).iv()
                    &&& final(self).cipher() == old(self).cipher()
                    &&& v@.len() <= want
                    &&& final(self).delivered() == old(self).delivered() + v@
                    &&& (v@.len() < want ==> final(self).is_finished() && final(self).delivered()
                        == final(self).produced())
                    &&& (old(self).is_finished() ==> final(self).is_finished())
                },
                Err(e) => {
                    &&& (e == CryptoError::InvalidPadding || e == CryptoError::TruncatedStream
                        || e == CryptoError::IOError)
                    &&& final(self).key() == old(self).key()
                    &&& final(self).iv() == old(self).iv()
                    &&& final(self).cipher() == old(self).cipher()
                    &&& final(self).delivered() == old(self).delivered()
                    &&& (e != CryptoError::IOError ==> forall|p: Seq<u8>|
                        old(self).cipher() != #[trigger] cbc_encrypt(
                            old(self).key(),
                            old(self).iv(),
                            p,
                        ))
                    &&& (e == CryptoError::TruncatedStream ==> old(self).cipher().len() % 16
                        != 0)
                    &&& (e == CryptoError::InvalidPadding ==> old(self).cipher().len() % 16
                        == 0)
                },
            },
    {
        while self.pending.len() < want && !self.finalized
            invariant
                self.wf(),
                self.key() == old(self).key(),
                self.iv() == old(self).iv(),
                self.cipher() == old(self).cipher(),
                self.delivered() == old(self).delivered(),
                old(self).is_finished() ==> self.is_finished(),
            decreases (if self.finalized { 0int } else { 1int }), (if self.eof_seen {
                0int
            } else {
                1int
            }), self.reader.avail().len(), self.read_buf@.len(),
        {
            if !self.eof_seen && self.read_buf.len() == 0 {
                let ghost avail_old = self.reader.avail();
                match self.reader.read_some(4096) {
                    Ok(got) => {
                        if got.len() == 0 {
                            self.eof_seen = true;
                        } else {
                            let mut g = got;
                            let ghost buf_old = self.read_buf@;
                            self.read_buf.append(&mut g);
                            proof {
                                assert(dec_fed(self.dec) + self.read_buf@ + self.reader.avail()
                                    =~= dec_fed(self.dec) + buf_old + avail_old);
                            }
                        }
                    },
                    Err(e) => {
                        return Err(e);
                    },
                }
            }
            let ghost fed_old = dec_fed(self.dec);
            let ghost buf_old = self.read_buf@;
            let ghost out_old = dec_out(self.dec);
            if !self.eof_seen {
                let mut scratch: Vec<u8> = Vec::new();
                scratch.resize(4096, 0u8);
                let step = cbc_decryptor_step(&mut self.dec, &self.read_buf, &mut scratch, 0, false);
                match step {
                    Ok((consumed, produced, _d)) => {
                        vec_append_prefix(&mut self.pending, &scratch, produced);
                        let tail = self.read_buf.split_off(consumed);
                        self.read_buf = tail;
                        proof {
                            assert((fed_old + buf_old.take(consumed as int)) + buf_old.skip(
                                consumed as int,
                            ) + self.reader.avail() =~= fed_old + buf_old + self.reader.avail());
                            assert(scratch@.subrange(0, produced as int) =~= scratch@.take(
                                produced as int,
                            ));
                            assert(self.served@ + (self.pending@) =~= out_old + scratch@.subrange(
                                0,
                                produced as int,
                            ));
                            assert(dec_fed(self.dec) + (self.read_buf@ + self.reader.avail())
                                =~= self.cipher());
                            lemma_prefix_concat(
                                dec_fed(self.dec),
                                self.read_buf@ + self.reader.avail(),
                            );
                            assert((fed_old + buf_old) + self.reader.avail() =~= self.cipher());
                            lemma_prefix_concat(fed_old + buf_old, self.reader.avail());
                        }
                    },
                    Err(e) => {
                        // unreachable: a mid-stream step cannot fail
                        return Err(e);
                    },
                }
            } else {
                let in_len = self.read_buf.len();
                let mut fin: Vec<u8> = Vec::new();
                fin.resize(in_len + 48, 0u8);
                let step = cbc_decryptor_step(&mut self.dec, &self.read_buf, &mut fin, 0, true);
                match step {
                    Ok((consumed, produced, done)) => {
                        proof {
                            assert(done);
                        }
                        vec_append_prefix(&mut self.pending, &fin, produced);
                        self.read_buf = Vec::new();
                        proof {
                            assert(dec_fed(self.dec) =~= fed_old + buf_old);
                            assert(dec_fed(self.dec) + self.read_buf@ + self.reader.avail()
                                =~= dec_fed(self.dec));
                            assert(fin@.subrange(0, produced as int) =~= fin@.take(
                                produced as int,
                            ));
                            assert(self.served@ + self.pending@ =~= dec_out(self.dec));
                        }
                        // the raw stream has been fully decrypted; validate and
                        // strip the PKCS padding
                        let ghost served_v = self.served@;
                        let ghost pend_raw = self.pending@;
                        let ghost keyv = old(self).key();
                        let ghost ivv = old(self).iv();
                        let ghost ciph = old(self).cipher();
                        proof {
                            assert(fed_old + buf_old + self.reader.avail() =~= fed_old
                                + buf_old);
                            assert(dec_fed(self.dec) == ciph);
                            // for any plaintext of this stream, the raw
                            // emission is its padded form, and everything
                            // handed out so far stops short of the padding
                            assert forall|p: Seq<u8>|
                                ciph == #[trigger] cbc_encrypt(keyv, ivv, p) && p.len()
                                    > 0 implies {
                                &&& served_v + pend_raw == pkcs_pad(p)
                                &&& pend_raw.len() >= crate::padding::pad_count(p.len())
                            } by {
                                lemma_pad_count_bounds(p.len());
                                assert(dec_out(self.dec) == padded_of(p));
                                assert(served_v + pend_raw == pkcs_pad(p));
                                assert(served_v.len() <= out_old.len());
                                assert(out_old.len() + 16 <= padded_of(p).len() || out_old.len()
                                    == 0);
                            }
                            assert forall|p: Seq<u8>|
                                ciph == #[trigger] cbc_encrypt(keyv, ivv, p) && p.len()
                                    == 0 implies self.pending@.len() == 0 && served_v
                                == p by {
                                assert(dec_out(self.dec) == padded_of(p));
                                assert(served_v + pend_raw == padded_of(p));
                                assert(served_v =~= Seq::<u8>::empty());
                                assert(p =~= Seq::<u8>::empty());
                            }
                        }
                        let plen = self.pending.len();
                        if plen > 0 {
                            let c = self.pending[plen - 1];
                            let cu = c as usize;
                            let pad_bad = c < 1 || c > 16 || cu > plen;
                            let mut i: usize = 0;
                            let mut equal_ok = true;
                            if !pad_bad {
                                while i < cu
                                    invariant
                                        i <= cu,
                                        cu <= self.pending@.len(),
                                        plen == self.pending@.len(),
                                        equal_ok <==> (forall|j: int|
                                            0 <= j < i ==> #[trigger] self.pending@[plen - 1
                                                - j] == c),
                                    decreases cu - i,
                                {
                                    if self.pending[plen - 1 - i] != c {
                                        equal_ok = false;
                                    }
                                    i = i + 1;
                                }
                            }
                            if pad_bad || !equal_ok {
                                proof {
                                    assert forall|p: Seq<u8>|
                                        ciph != #[trigger] cbc_encrypt(keyv, ivv, p) by {
                                        if ciph == cbc_encrypt(keyv, ivv, p) {
                                            if p.len() == 0 {
                                                assert(false);
                                            } else {
                                                lemma_strip_split(served_v, pend_raw, p);
                                                assert(c == crate::padding::pad_count(
                                                    p.len(),
                                                ) as u8);
                                                assert(!pad_bad);
                                                assert(equal_ok);
                                                assert(false);
                                            }
                                        }
                                    }
                                }
                                return Err(CryptoError::InvalidPadding);
                            }
                            self.pending.truncate(plen - cu);
                            self.finalized = true;
                            proof {
                                assert forall|p: Seq<u8>|
                                    self.cipher() == #[trigger] cbc_encrypt(
                                        self.key(),
                                        self.iv(),
                                        p,
                                    ) implies self.produced() == p by {
                                    if p.len() == 0 {
                                        assert(false);
                                    } else {
                                        lemma_strip_split(served_v, pend_raw, p);
                                        assert(c == crate::padding::pad_count(p.len()) as u8);
                                        assert(self.pending@ =~= pend_raw.take(
                                            plen - cu,
                                        ));
                                    }
                                }
                            }
                        } else {
                            self.finalized = true;
                            proof {
                                assert forall|p: Seq<u8>|
                                    self.cipher() == #[trigger] cbc_encrypt(
                                        self.key(),
                                        self.iv(),
                                        p,
                                    ) implies self.produced() == p by {
                                    if p.len() > 0 {
                                        assert(false);
                                    }
                                }
                            }
                        }
                    },
                    Err(e) => {
                        self.read_buf = Vec::new();
                        proof {
                            assert(dec_fed(self.dec) + self.read_buf@ + self.reader.avail()
                                =~= fed_old + buf_old + self.reader.avail());
                        }
                        return Err(e);
                    },
                }
            }
        }
        let k = if want < self.pending.len() {
            want
        } else {
            self.pending.len()
        };
        let ghost pend_old = self.pending@;
        let mut rest = self.pending.split_off(k);
        core::mem::swap(&mut self.pending, &mut rest);
        let head = rest;
        proof {
            assert(self.served@ + head@ + self.pending@ =~= self.served@ + pend_old);
        }
        self.served = Ghost(self.served@ + head@);
        Ok(head)
    }

    /// Drain the rest of the stream, and validate the trailing padding: a
    /// malformed final block is `InvalidPadding`, a stream ending off a
    /// block boundary is `TruncatedStream`. Succeeds on every stream that
    /// is a valid encryption under this key and IV; afterwards everything
    /// recovered has been handed out.
    pub fn finish(&mut self) -> (r: Result<(), CryptoError>)
        requires
            old(self).wf(),
        ensures
            match r {
                Ok(()) => {
                    &&& final(self).wf()
                    &&& final(self).is_finished()
                    &&& final(self).key() == old(self).key()
                    &&& final(self).iv() == old(self).iv()
                    &&& final(self).cipher() == old(self).cipher()
                    &&& final(self).delivered() == final(self).produced()
                    &&& old(self).delivered().is_prefix_of(final(self).delivered())
                },
                Err(e) => {
                    &&& (e == CryptoError::InvalidPadding || e == CryptoError::TruncatedStream
                        || e == CryptoError::IOError)
                    &&& final(self).key() == old(self).key()
                    &&& final(self).iv() == old(self).iv()
                    &&& final(self).cipher() == old(self).cipher()
                    &&& old(self).delivered().is_prefix_of(final(self).delivered())
                    &&& (e != CryptoError::IOError ==> forall|p: Seq<u8>|
                        old(self).cipher() != #[trigger] cbc_encrypt(
                            old(self).key(),
                            old(self).iv(),
                            p,
                        ))
                    &&& (e == CryptoError::TruncatedStream ==> old(self).cipher().len() % 16
                        != 0)
                    &&& (e == CryptoError::InvalidPadding ==> old(self).cipher().len() % 16
                        == 0)
                },
            },
    {
        let mut done = false;
        proof {
            assert(old(self).delivered() =~= self.delivered().take(
                old(self).delivered().len() as int,
            ));
        }
        while !done
            invariant
                self.wf(),
                self.key() == old(self).key(),
                self.iv() == old(self).iv(),
                self.cipher() == old(self).cipher(),
                old(self).delivered().is_prefix_of(self.delivered()),
                self.delivered().len() <= self.cipher().len(),
                done ==> self.is_finished() && self.delivered() == self.produced(),
            decreases (if done { 0int } else { 1int }), old(self).cipher().len()
                - self.delivered().len(),
        {
            let ghost delivered_prev = self.delivered();
            match self.read(4096) {
                Ok(v) => {
                    if v.len() < 4096 {
                        done = true;
                    }
                    proof {
                        lemma_prefix_concat(delivered_prev, v@);
                        lemma_prefix_trans(
                            old(self).delivered(),
                            delivered_prev,
                            self.delivered(),
                        );
                    }
                },
                Err(e) => {
                    return Err(e);
                },
            }
        }
        Ok(())
    }
}

/// Start an encrypting stream over `out` from a passphrase: the key is the
/// SHA3-256 digest of the passphrase and the IV is 16 bytes of fresh
/// operating-system randomness, written to the sink in the clear.
pub fn new_aes_encrypt_stream<S: Sink>(key: String, out: S) -> (r: Result<
    EncryptStream<S>,
    CryptoError,
>)
    ensures
        match r {
            Ok(s) => {
                &&& s.wf()
                &&& !s.is_finished()
                &&& s.key() == sha3_256_of(key@)
                &&& s.iv().len() == 16
                &&& s.plain() == Seq::<u8>::empty()
                &&& s.base() == out.sunk()
                &&& s.sink_contents() == out.sunk() + s.iv()
            },
            Err(e) => e == CryptoError::IOError,
        },
{
    let k = hash_string(key);
    let iv = match random_iv() {
        Ok(iv) => iv,
        Err(e) => {
            return Err(e);
        },
    };
    EncryptStream::new(k.as_slice(), iv.as_slice(), out)
}

/// Start a decrypting stream over `reader` from a passphrase: the key is the
/// SHA3-256 digest of the passphrase, and the IV is read as the first 16
/// bytes of the source. The passphrase must match the one the stream was
/// encrypted under, or decryption fails or produces garbage.
pub fn new_aes_decrypt_stream<R: Source>(key: String, reader: R) -> (r: Result<
    DecryptStream<R>,
    CryptoError,
>)
    ensures
        match r {
            Ok(s) => {
                &&& s.wf()
                &&& !s.is_finished()
                &&& s.key() == sha3_256_of(key@)
                &&& reader.avail().len() >= 16
                &&& s.iv() == reader.avail().take(16)
                &&& s.cipher() == reader.avail().skip(16)
                &&& s.produced() == Seq::<u8>::empty()
                &&& s.delivered() == Seq::<u8>::empty()
            },
            Err(e) => {
                &&& (e == CryptoError::TruncatedStream || e == CryptoError::IOError)
                &&& (e == CryptoError::TruncatedStream ==> reader.avail().len() < 16)
            },
        },
{
    let k = hash_string(key);
    DecryptStream::new(k.as_slice(), reader)
}

/// Key derivation is deterministic: equal passphrases always yield equal
/// keys, so the decrypting side can reconstruct the key from the same
/// passphrase.
pub proof fn lemma_key_derivation_deterministic(a: Seq<char>, b: Seq<char>)
    requires
        a == b,
    ensures
        sha3_256_of(a) == sha3_256_of(b),
{
}

/// Chunking independence: two finished encryption sessions under the same
/// key and IV whose plaintexts — the concatenations of all their writes —
/// are equal emit byte-identical streams, however differently the plaintext
/// was split into write calls.
pub proof fn lemma_chunking_independence<S1: Sink, S2: Sink>(
    a: &EncryptStream<S1>,
    b: &EncryptStream<S2>,
)
    requires
        a.wf(),
        b.wf(),
        a.is_finished(),
        b.is_finished(),
        a.key() == b.key(),
        a.iv() == b.iv(),
        a.plain() == b.plain(),
    ensures
        a.emitted() == b.emitted(),
{
}

/// Round trip: a finished decryption session whose ciphertext is exactly
/// what a finished encryption session with the same key and IV emitted
/// yields the original plaintext.
pub proof fn lemma_round_trip<S: Sink, R: Source>(e: &EncryptStream<S>, d: &DecryptStream<R>)
    requires
        e.wf(),
        d.wf(),
        e.is_finished(),
        d.is_finished(),
        d.key() == e.key(),
        d.iv() == e.iv(),
        d.cipher() == cbc_encrypt(e.key(), e.iv(), e.plain()),
    ensures
        d.produced() == e.plain(),
{
}

/// Partial progress is safe: whatever a decryption session has recovered so
/// far — under any pattern of reads, and however small the chunks its
/// source hands out — is a prefix of the plaintext of any valid stream
/// with this session's ciphertext.
pub proof fn lemma_produced_is_prefix<R: Source>(d: &DecryptStream<R>, p: Seq<u8>)
    requires
        d.wf(),
        d.cipher() == cbc_encrypt(d.key(), d.iv(), p),
    ensures
        d.produced().is_prefix_of(p),
        d.delivered().is_prefix_of(p),
{
    if d.is_finished() {
        assert(d.produced() == p);
    } else {
        if p.len() == 0 {
            assert(padded_of(p).len() == 0);
            assert(d.produced() =~= p.take(d.produced().len() as int));
        } else {
            lemma_pad_count_bounds(p.len());
            if d.produced().len() == 0 {
                assert(d.produced() =~= p.take(0));
            } else {
                lemma_prefix_of_padded(d.produced(), p);
            }
        }
    }
    lemma_prefix_concat(d.delivered(), d.produced().skip(d.delivered().len() as int));
    assert(d.delivered() + d.produced().skip(d.delivered().len() as int) =~= d.produced());
    lemma_prefix_trans(d.delivered(), d.produced(), p);
}

} // verus!
