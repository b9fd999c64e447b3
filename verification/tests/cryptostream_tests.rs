use cryptostream::{
    hash_string, new_aes_decrypt_stream, new_aes_encrypt_stream, CryptoError, DecryptStream,
    EncryptStream, MemoryStream, Sink, Source,
};

const KEY: [u8; 32] = [7u8; 32];
const IV: [u8; 16] = [9u8; 16];

/// Encrypt `data`, split into the given chunk lengths, under a fixed key and
/// IV; returns the full stream (IV followed by ciphertext).
fn encrypt_chunks(data: &[u8], chunk_len: usize) -> Vec<u8> {
    let mem = MemoryStream::new();
    let mut enc = EncryptStream::new(&KEY, &IV, mem).unwrap();
    let mut i = 0;
    while i < data.len() {
        let end = usize::min(i + chunk_len, data.len());
        let n = enc.write(&data[i..end]).unwrap();
        assert_eq!(n, end - i);
        i = end;
    }
    enc.finish().unwrap();
    enc.into_writer().get_buffer()
}

/// Decrypt a full stream (IV followed by ciphertext) under the fixed key,
/// reading `per_read` bytes at a time.
fn decrypt_stream(stream: &[u8], per_read: usize) -> Result<Vec<u8>, CryptoError> {
    let mut mem = MemoryStream::new();
    mem.write_some(stream).unwrap();
    mem.rewind();
    let mut dec = DecryptStream::new(&KEY, mem)?;
    let mut plain = Vec::new();
    loop {
        let got = dec.read(per_read)?;
        let short = got.len() < per_read;
        plain.extend_from_slice(&got);
        if short {
            break;
        }
    }
    dec.finish()?;
    Ok(plain)
}

fn roundtrip(data: &[u8]) {
    let stream = encrypt_chunks(data, usize::max(data.len(), 1));
    // the stream is the IV plus whole padded blocks, never the plaintext;
    // an empty plaintext makes an empty ciphertext
    let expected_cipher_len = if data.is_empty() { 0 } else { (data.len() / 16 + 1) * 16 };
    assert_eq!(stream.len(), 16 + expected_cipher_len);
    assert_eq!(&stream[..16], &IV);
    let back = decrypt_stream(&stream, 64).unwrap();
    assert_eq!(back, data);
}

#[test]
fn test_hash_string() {
    let hash1 = hash_string(String::from("Hello world"));
    println!("{:?}", hash1);
}

#[test]
fn test_aes_cryptostream() {
    let mem = MemoryStream::new();
    let mut enc = new_aes_encrypt_stream(String::from("key: String"), mem).unwrap();
    enc.write("hej".as_bytes()).unwrap();
    enc.write("hej".as_bytes()).unwrap();
    enc.write("hej".as_bytes()).unwrap();
    enc.write("hej".as_bytes()).unwrap();
    enc.write("he2".as_bytes()).unwrap();
    enc.finish().unwrap();
    let mut mem = enc.into_writer();

    mem.rewind();
    let buf = mem.get_buffer();
    let mut mem2 = MemoryStream::new();
    mem2.write_some(&buf).unwrap();
    mem2.rewind();

    let mut dec = new_aes_decrypt_stream(String::from("key: String"), mem2).unwrap();
    let x = dec.read(32).unwrap();
    let reread = String::from_utf8(x).unwrap();
    println!("XX: {}", reread);
}

#[test]
fn concrete_scenario_five_writes() {
    let mem = MemoryStream::new();
    let mut enc = new_aes_encrypt_stream(String::from("key: String"), mem).unwrap();
    for part in ["hej", "hej", "hej", "hej", "he2"] {
        enc.write(part.as_bytes()).unwrap();
    }
    enc.finish().unwrap();
    let mut mem = enc.into_writer();

    mem.rewind();
    let buf = mem.get_buffer();
    // 15 plaintext bytes: one IV block, one data-plus-padding block... the
    // 15 bytes fill most of one block, so one padded block follows the IV
    assert_eq!(buf.len(), 16 + 16);

    let mut mem2 = MemoryStream::new();
    mem2.write_some(&buf).unwrap();
    mem2.rewind();
    let mut dec = new_aes_decrypt_stream(String::from("key: String"), mem2).unwrap();
    let mut plain = Vec::new();
    loop {
        let got = dec.read(8).unwrap();
        let short = got.len() < 8;
        plain.extend_from_slice(&got);
        if short {
            break;
        }
    }
    dec.finish().unwrap();
    assert_eq!(plain, "hejhejhejhejhe2".as_bytes());
}

#[test]
fn roundtrip_empty() {
    roundtrip(&[]);
}

#[test]
fn roundtrip_single_byte() {
    roundtrip(&[42]);
}

#[test]
fn roundtrip_exactly_one_block() {
    roundtrip(&[0, 1, 2, 3, 4, 5, 6, 7, 8, 9, 10, 11, 12, 13, 14, 15]);
}

#[test]
fn roundtrip_multi_block_with_remainder() {
    let data: Vec<u8> = (0u8..37).map(|i| i.wrapping_mul(11)).collect();
    roundtrip(&data);
}

#[test]
fn ciphertext_differs_from_plaintext() {
    let data = b"sixteen byte msg";
    let stream = encrypt_chunks(data, 16);
    assert_ne!(&stream[16..32], &data[..]);
}

#[test]
fn key_derivation_deterministic() {
    let a = hash_string(String::from("correct horse battery staple"));
    let b = hash_string(String::from("correct horse battery staple"));
    assert_eq!(a, b);
    let c = hash_string(String::from("correct horse battery stapl3"));
    assert_ne!(a, c);
}

#[test]
fn hash_is_not_the_input() {
    // a 32-byte passphrase whose digest must not be the passphrase itself
    let text = "abcdefghijklmnopqrstuvwxyz012345";
    let h = hash_string(String::from(text));
    assert_eq!(h.len(), 32);
    assert_ne!(&h[..], text.as_bytes());
}

#[test]
fn iv_uniqueness_across_sessions() {
    let mut enc1 = new_aes_encrypt_stream(String::from("same pass"), MemoryStream::new()).unwrap();
    enc1.finish().unwrap();
    let mut enc2 = new_aes_encrypt_stream(String::from("same pass"), MemoryStream::new()).unwrap();
    enc2.finish().unwrap();
    let buf1 = enc1.into_writer().get_buffer();
    let buf2 = enc2.into_writer().get_buffer();
    assert_ne!(&buf1[..16], &buf2[..16]);
}

#[test]
fn wrong_key_never_returns_the_plaintext() {
    let data = b"attack at dawn, twice over!";
    let mut enc = new_aes_encrypt_stream(String::from("right"), MemoryStream::new()).unwrap();
    enc.write(data).unwrap();
    enc.finish().unwrap();
    let buf = enc.into_writer().get_buffer();

    let mut mem2 = MemoryStream::new();
    mem2.write_some(&buf).unwrap();
    mem2.rewind();
    let mut dec = new_aes_decrypt_stream(String::from("wrong"), mem2).unwrap();
    let mut plain = Vec::new();
    let mut failed = false;
    loop {
        match dec.read(64) {
            Ok(got) => {
                let short = got.len() < 64;
                plain.extend_from_slice(&got);
                if short {
                    break;
                }
            }
            Err(e) => {
                assert!(e == CryptoError::InvalidPadding || e == CryptoError::TruncatedStream);
                failed = true;
                break;
            }
        }
    }
    if !failed {
        if let Err(e) = dec.finish() {
            assert!(e == CryptoError::InvalidPadding || e == CryptoError::TruncatedStream);
            failed = true;
        }
    }
    // either the padding check fires, or the output is garbage; the true
    // plaintext never comes back silently
    assert!(failed || plain != data);
}

#[test]
fn chunking_independence() {
    let data: Vec<u8> = (0u8..50).collect();
    let one_write = encrypt_chunks(&data, 50);
    let byte_writes = encrypt_chunks(&data, 1);
    let sevens = encrypt_chunks(&data, 7);
    assert_eq!(one_write, byte_writes);
    assert_eq!(one_write, sevens);
}

#[test]
fn partial_reads_reassemble_the_plaintext() {
    let data: Vec<u8> = (0u8..100).map(|i| i.wrapping_mul(3)).collect();
    let stream = encrypt_chunks(&data, 100);
    for per_read in [1, 2, 3, 5, 16, 17, 64] {
        let back = decrypt_stream(&stream, per_read).unwrap();
        assert_eq!(back, data);
    }
}

#[test]
fn trickling_source_still_decrypts() {
    // a source that hands out one byte per read, however many are asked for
    struct Trickle {
        inner: MemoryStream,
    }
    impl Source for Trickle {
        // specification-only method; never called at run time
        fn avail(&self) -> vstd::seq::Seq<u8> {
            unreachable!()
        }
        fn read_some(&mut self, max: usize) -> Result<Vec<u8>, CryptoError> {
            self.inner.read_some(usize::min(max, 1))
        }
    }

    let data = b"drip by drip the stream comes through";
    let stream = encrypt_chunks(data, data.len());
    let mut mem = MemoryStream::new();
    mem.write_some(&stream).unwrap();
    mem.rewind();
    let mut dec = DecryptStream::new(&KEY, Trickle { inner: mem }).unwrap();
    let mut plain = Vec::new();
    loop {
        let got = dec.read(10).unwrap();
        let short = got.len() < 10;
        plain.extend_from_slice(&got);
        if short {
            break;
        }
    }
    dec.finish().unwrap();
    assert_eq!(plain, data);
}

#[test]
fn truncated_iv_is_reported() {
    let mut mem = MemoryStream::new();
    mem.write_some(&[1, 2, 3]).unwrap();
    mem.rewind();
    match DecryptStream::new(&KEY, mem) {
        Err(CryptoError::TruncatedStream) => {}
        other => panic!("unexpected: {:?}", other.map(|_| ())),
    }
}

#[test]
fn truncated_ciphertext_is_reported() {
    let data = b"some plaintext that spans blocks";
    let stream = encrypt_chunks(data, data.len());
    // cut the stream off a block boundary
    let cut = &stream[..stream.len() - 5];
    match decrypt_stream(cut, 64) {
        Err(CryptoError::TruncatedStream) => {}
        other => panic!("unexpected: {:?}", other),
    }
}

#[test]
fn corrupted_padding_is_reported() {
    let data = b"some plaintext that spans blocks";
    let mut stream = encrypt_chunks(data, data.len());
    let last = stream.len() - 1;
    stream[last] ^= 0xff;
    match decrypt_stream(&stream, 64) {
        Err(CryptoError::InvalidPadding) => {}
        Ok(plain) => assert_ne!(plain, data),
        other => panic!("unexpected: {:?}", other),
    }
}

#[test]
fn failing_sink_aborts_construction() {
    struct FailingSink;
    impl Sink for FailingSink {
        // specification-only method; never called at run time
        fn sunk(&self) -> vstd::seq::Seq<u8> {
            unreachable!()
        }
        fn write_some(&mut self, _data: &[u8]) -> Result<usize, CryptoError> {
            Err(CryptoError::IOError)
        }
        fn flush(&mut self) -> Result<(), CryptoError> {
            Err(CryptoError::IOError)
        }
    }

    match EncryptStream::new(&KEY, &IV, FailingSink) {
        Err(CryptoError::IOError) => {}
        _ => panic!("expected an IOError"),
    }
}
