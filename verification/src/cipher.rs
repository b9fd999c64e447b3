//! The block cipher engine: AES-256 in CBC mode with PKCS padding, provided
//! by the `crypto` crate and specified here at its interface.
//!
//! The engine is a resumable, partial-progress transform: each step consumes
//! as much input as fits and emits as much output as there is room for, and a
//! step flagged as final pads (encrypting) or strips and checks the padding
//! (decrypting). The streaming adapters are verified against the contracts
//! in this module.

use vstd::prelude::*;

use crypto::buffer::{BufferResult, ReadBuffer, RefReadBuffer, RefWriteBuffer, WriteBuffer};
use crypto::symmetriccipher::SymmetricCipherError;

use crate::error::CryptoError;
use crate::padding::padded_of;

verus! {

/// The SHA3-256 digest of a passphrase. The digest is a function of the
/// passphrase text alone: the same text gives the same 32 bytes in every
/// process and on every machine.
pub uninterp spec fn sha3_256_of(text: Seq<char>) -> Seq<u8>;

/// The full AES-256-CBC-PKCS ciphertext of a plaintext under a key and an
/// initialization vector: everything the encrypting engine emits when fed
/// `plain` and then finalized. It is a function of its three arguments alone.
pub uninterp spec fn cbc_encrypt(key: Seq<u8>, iv: Seq<u8>, plain: Seq<u8>) -> Seq<u8>;

/// An encrypting AES-256-CBC engine with PKCS padding.
///
/// The engine's behaviour is modelled by `enc_key`, `enc_iv` (fixed at
/// construction), `enc_fed` (all plaintext consumed so far), `enc_sent` (all
/// ciphertext emitted so far) and `enc_phase` (0 while streaming, 1 once a
/// finalizing step has consumed the last of the input).
#[verifier::external_body]
pub struct CbcEncryptor {
    inner: Box<dyn crypto::symmetriccipher::Encryptor>,
}

pub uninterp spec fn enc_key(e: CbcEncryptor) -> Seq<u8>;

pub uninterp spec fn enc_iv(e: CbcEncryptor) -> Seq<u8>;

pub uninterp spec fn enc_fed(e: CbcEncryptor) -> Seq<u8>;

pub uninterp spec fn enc_sent(e: CbcEncryptor) -> Seq<u8>;

pub uninterp spec fn enc_phase(e: CbcEncryptor) -> int;

/// Relies on crypto::aes::cbc_encryptor: a fresh AES-256-CBC encryptor with
/// PKCS padding over the given key and IV, which has consumed and emitted
/// nothing. The key must be 32 bytes and the IV 16 bytes, the lengths the
/// cipher is constructed for.
#[verifier::external_body]
pub(crate) fn cbc_encryptor_new(key: &[u8], iv: &[u8]) -> (e: CbcEncryptor)
    requires
        key@.len() == 32,
        iv@.len() == 16,
    ensures
        enc_key(e) == key@,
        enc_iv(e) == iv@,
        enc_fed(e) == Seq::<u8>::empty(),
        enc_sent(e) == Seq::<u8>::empty(),
        enc_phase(e) == 0,
{
    CbcEncryptor {
        inner: crypto::aes::cbc_encryptor(
            crypto::aes::KeySize::KeySize256,
            key,
            iv,
            crypto::blockmodes::PkcsPadding,
        ),
    }
}

/// Relies on crypto::symmetriccipher::Encryptor::encrypt, implemented by the
/// crypto crate's CbcEncryptor (a BlockEngine over AES with EncPadding):
///
/// - the step consumes a prefix of `input` and writes emitted ciphertext into
///   `out[pos..pos + r.1]`, touching nothing else;
/// - `r.2` reports the engine's BufferUnderflow result: the input was fully
///   consumed; otherwise (BufferOverflow) the output buffer was filled;
/// - the engine buffers at most one block of pending input and two blocks of
///   pending output internally, so a step given 48 free output bytes makes
///   progress, and a finalizing step with no input and 48 free bytes
///   completes;
/// - once a finalizing step has consumed all input, everything emitted is
///   exactly the ciphertext of everything consumed, whose length is the
///   padded length of the plaintext — whole blocks covering it plus the
///   padding, and nothing at all for an empty plaintext;
/// - encryption with PKCS padding neither fails nor panics for a block size
///   of 16.
#[verifier::external_body]
pub(crate) fn cbc_encryptor_step(
    e: &mut CbcEncryptor,
    input: &[u8],
    out: &mut Vec<u8>,
    pos: usize,
    eof: bool,
) -> (r: (usize, usize, bool))
    requires
        pos <= old(out)@.len(),
        enc_phase(*old(e)) == 0 || (enc_phase(*old(e)) == 1 && eof && input@.len() == 0),
    ensures
        r.0 <= input@.len(),
        pos + r.1 <= old(out)@.len(),
        final(out)@.len() == old(out)@.len(),
        forall|i: int|
            0 <= i < old(out)@.len() && !(pos <= i < pos + r.1) ==> final(out)@[i]
                == old(out)@[i],
        enc_key(*final(e)) == enc_key(*old(e)),
        enc_iv(*final(e)) == enc_iv(*old(e)),
        enc_fed(*final(e)) == enc_fed(*old(e)) + input@.take(r.0 as int),
        enc_sent(*final(e)) == enc_sent(*old(e)) + final(out)@.subrange(
            pos as int,
            pos + r.1,
        ),
        enc_phase(*final(e)) == if eof && r.0 == input@.len() {
            1int
        } else {
            0int
        },
        r.2 ==> r.0 == input@.len(),
        !r.2 ==> pos + r.1 == old(out)@.len(),
        !r.2 && pos == 0 && old(out)@.len() >= 48 ==> r.0 > 0,
        eof && input@.len() == 0 && old(out)@.len() - pos >= 48 ==> r.2,
        eof && r.2 ==> enc_sent(*final(e)) == cbc_encrypt(
            enc_key(*old(e)),
            enc_iv(*old(e)),
            enc_fed(*final(e)),
        ),
        eof && r.2 ==> enc_sent(*final(e)).len() == padded_of(enc_fed(*final(e))).len(),
{
    let mut rd = RefReadBuffer::new(input);
    let mut wd = RefWriteBuffer::new(&mut out[pos..]);
    let res = e.inner.encrypt(&mut rd, &mut wd, eof);
    let consumed = rd.position();
    let produced = wd.position();
    let done = matches!(res, Ok(BufferResult::BufferUnderflow));
    (consumed, produced, done)
}

/// A decrypting AES-256-CBC engine without a padding processor: the raw CBC
/// inverse. The streaming adapter validates and strips the PKCS padding in
/// verified code; the crate's own padding strip is not used (it can both
/// accept a pad count of zero and underflow on an oversized one).
///
/// The engine's behaviour is modelled by `dec_key`, `dec_iv` (fixed at
/// construction), `dec_fed` (all ciphertext consumed so far), `dec_out` (all
/// raw decrypted bytes emitted so far, the padding among them at the end)
/// and `dec_phase` (0 while streaming, 1 once a finalizing step has consumed
/// the last of the input, 2 after a failure).
#[verifier::external_body]
pub struct CbcDecryptor {
    inner: Box<dyn crypto::symmetriccipher::Decryptor>,
}

pub uninterp spec fn dec_key(d: CbcDecryptor) -> Seq<u8>;

pub uninterp spec fn dec_iv(d: CbcDecryptor) -> Seq<u8>;

pub uninterp spec fn dec_fed(d: CbcDecryptor) -> Seq<u8>;

pub uninterp spec fn dec_out(d: CbcDecryptor) -> Seq<u8>;

pub uninterp spec fn dec_phase(d: CbcDecryptor) -> int;

/// Relies on crypto::aes::cbc_decryptor with NoPadding: a fresh raw
/// AES-256-CBC decryptor over the given key and IV, which has consumed and
/// emitted nothing. The key must be 32 bytes and the IV 16 bytes, the
/// lengths the cipher is constructed for.
#[verifier::external_body]
pub(crate) fn cbc_decryptor_new(key: &[u8], iv: &[u8]) -> (d: CbcDecryptor)
    requires
        key@.len() == 32,
        iv@.len() == 16,
    ensures
        dec_key(d) == key@,
        dec_iv(d) == iv@,
        dec_fed(d) == Seq::<u8>::empty(),
        dec_out(d) == Seq::<u8>::empty(),
        dec_phase(d) == 0,
{
    CbcDecryptor {
        inner: crypto::aes::cbc_decryptor(
            crypto::aes::KeySize::KeySize256,
            key,
            iv,
            crypto::blockmodes::NoPadding,
        ),
    }
}

/// Relies on crypto::symmetriccipher::Decryptor::decrypt, implemented by the
/// crypto crate's CbcDecryptor (a BlockEngine over AES with NoPadding):
///
/// - the step consumes a prefix of `input` and writes decrypted bytes into
///   `out[pos..pos + n]`, touching nothing else; on BufferUnderflow the
///   input was fully consumed, otherwise the output buffer was filled;
/// - the engine buffers at most one block of pending input and one of
///   pending output, so a step emits at most 32 bytes beyond what it
///   consumes, and a full output of 48 bytes or more means input was taken;
/// - the engine never processes a block before a byte beyond it is in view,
///   so as long as everything shown to it is a prefix of a valid stream, it
///   stays at least one block short of that stream's padded plaintext until
///   the finalizing step; what it emits is always a prefix of the padded
///   plaintext of any valid stream extending what was consumed, and a
///   completed finalizing step has emitted that padded plaintext whole;
/// - a mid-stream step cannot fail; a finalizing step fails exactly when
///   the bytes consumed do not end on a block boundary — never a multiple
///   of sixteen, so never any valid stream — and with no padding processor
///   there is no other failure and no panic.
#[verifier::external_body]
pub(crate) fn cbc_decryptor_step(
    d: &mut CbcDecryptor,
    input: &Vec<u8>,
    out: &mut Vec<u8>,
    pos: usize,
    eof: bool,
) -> (r: Result<(usize, usize, bool), CryptoError>)
    requires
        pos <= old(out)@.len(),
        dec_phase(*old(d)) == 0 || (dec_phase(*old(d)) == 1 && eof && input@.len() == 0),
    ensures
        dec_key(*final(d)) == dec_key(*old(d)),
        dec_iv(*final(d)) == dec_iv(*old(d)),
        !eof ==> r.is_ok(),
        (exists|p: Seq<u8>|
            dec_fed(*old(d)) + input@ == cbc_encrypt(
                dec_key(*old(d)),
                dec_iv(*old(d)),
                p,
            )) ==> r.is_ok(),
        match r {
            Ok((consumed, produced, done)) => {
                &&& consumed <= input@.len()
                &&& pos + produced <= old(out)@.len()
                &&& produced <= consumed + 32
                &&& final(out)@.len() == old(out)@.len()
                &&& forall|i: int|
                    0 <= i < old(out)@.len() && !(pos <= i < pos + produced)
                        ==> final(out)@[i] == old(out)@[i]
                &&& dec_fed(*final(d)) == dec_fed(*old(d)) + input@.take(consumed as int)
                &&& dec_out(*final(d)) == dec_out(*old(d)) + final(out)@.subrange(
                    pos as int,
                    pos + produced,
                )
                &&& dec_out(*final(d)).len() <= dec_fed(*final(d)).len()
                &&& dec_phase(*final(d)) == if eof && consumed == input@.len() {
                    1int
                } else {
                    0int
                }
                &&& (done ==> consumed == input@.len())
                &&& (!done ==> pos + produced == old(out)@.len())
                &&& (!done && pos == 0 && old(out)@.len() >= 48 ==> consumed > 0)
                &&& (forall|p: Seq<u8>|
                    dec_fed(*final(d)).is_prefix_of(
                        #[trigger] cbc_encrypt(dec_key(*old(d)), dec_iv(*old(d)), p),
                    ) ==> dec_out(*final(d)).is_prefix_of(padded_of(p)))
                &&& (!eof ==> forall|p: Seq<u8>|
                    (dec_fed(*old(d)) + input@).is_prefix_of(
                        #[trigger] cbc_encrypt(dec_key(*old(d)), dec_iv(*old(d)), p),
                    ) ==> dec_out(*final(d)).len() + 16 <= padded_of(p).len() || dec_out(
                        *final(d),
                    ).len() == 0)
                &&& (eof && done ==> dec_fed(*final(d)).len() % 16 == 0)
                &&& (eof && done ==> forall|p: Seq<u8>|
                    dec_fed(*final(d)) == #[trigger] cbc_encrypt(
                        dec_key(*old(d)),
                        dec_iv(*old(d)),
                        p,
                    ) ==> dec_out(*final(d)) == padded_of(p))
            },
            Err(e) => {
                &&& e == CryptoError::TruncatedStream
                &&& eof
                &&& dec_phase(*final(d)) == 2
                &&& dec_fed(*final(d)) == dec_fed(*old(d)) + input@
                &&& dec_fed(*final(d)).len() % 16 != 0
                &&& (forall|p: Seq<u8>|
                    dec_fed(*final(d)) != #[trigger] cbc_encrypt(
                        dec_key(*old(d)),
                        dec_iv(*old(d)),
                        p,
                    ))
            },
        },
{
    let mut rd = RefReadBuffer::new(&input[..]);
    let mut wd = RefWriteBuffer::new(&mut out[pos..]);
    let res = d.inner.decrypt(&mut rd, &mut wd, eof);
    let consumed = rd.position();
    let produced = wd.position();
    match res {
        Ok(BufferResult::BufferUnderflow) => Ok((consumed, produced, true)),
        Ok(BufferResult::BufferOverflow) => Ok((consumed, produced, false)),
        // with NoPadding the only reachable error is InvalidLength, at eof
        Err(_) => Err(CryptoError::TruncatedStream),
    }
}

/// Relies on crypto::sha3 in mode Sha3_256: the 32-byte digest of the
/// passphrase depends on the passphrase text alone.
///
/// This is a single unsalted, uniterated hash: a deliberate simplification,
/// unsuitable as a general password-based key derivation for low-entropy
/// passphrases.
#[verifier::external_body]
pub fn hash_string(key: String) -> (r: [u8; 32])
    ensures
        r@ == sha3_256_of(key@),
{
    let mut out: [u8; 32] = [0; 32];
    let mut sha = crypto::sha3::Sha3::new(crypto::sha3::Sha3Mode::Sha3_256);
    crypto::digest::Digest::input(&mut sha, key.as_bytes());
    crypto::digest::Digest::result(&mut sha, &mut out);
    out
}

/// Relies on rand::rngs::OsRng::try_fill_bytes: 16 bytes of
/// operating-system randomness. Nothing is promised of the values; a failure
/// of the operating-system source is reported as an error.
#[verifier::external_body]
pub(crate) fn random_iv() -> (r: Result<[u8; 16], CryptoError>)
    ensures
        r matches Err(e) ==> e == CryptoError::IOError,
{
    let mut iv: [u8; 16] = [0; 16];
    match rand::RngCore::try_fill_bytes(&mut rand::rngs::OsRng, &mut iv) {
        Ok(()) => Ok(iv),
        Err(_) => Err(CryptoError::IOError),
    }
}

} // verus!
