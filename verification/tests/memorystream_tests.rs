use cryptostream::{MemoryStream, Sink, Source};

#[test]
fn test_memorystream() {
    let mut mem = MemoryStream::new();

    let bytes = "hej".as_bytes();
    let written = mem.write_some(bytes).unwrap();
    assert_eq!(written, bytes.len());
    mem.flush().unwrap();

    let v = mem.get_buffer();

    assert_eq!(3, v.len());
    for i in 0..3 {
        assert_eq!(bytes[i], v[i]);
    }
}

#[test]
fn rewind_makes_written_bytes_readable() {
    let mut mem = MemoryStream::new();
    mem.write_some(&[1, 2, 3, 4, 5]).unwrap();
    // the cursor sits at the end after a write; nothing to read yet
    assert_eq!(mem.read_some(16).unwrap(), Vec::<u8>::new());
    mem.rewind();
    assert_eq!(mem.read_some(2).unwrap(), vec![1, 2]);
    assert_eq!(mem.read_some(16).unwrap(), vec![3, 4, 5]);
    assert_eq!(mem.read_some(16).unwrap(), Vec::<u8>::new());
}
