use pot::reader::{BufferedBytes, SliceReader};
use pot::Error;

#[test]
fn slice_reader_pub_methods() {
    let mut reader = SliceReader::from(&b"a"[..]);
    assert_eq!(reader.len(), 1);
    assert!(!reader.is_empty());
    assert_eq!(reader.read_bytes(1).unwrap(), b"a");

    assert_eq!(reader.len(), 0);
    assert!(reader.is_empty());
    assert_eq!(reader.remaining(), b"");
}

#[test]
fn short_reads_are_eof() {
    let mut reader = SliceReader::from(&b"abc"[..]);
    assert_eq!(reader.read_u8().unwrap(), b'a');
    assert!(matches!(reader.read_bytes(5), Err(Error::Eof)));
    assert!(reader.is_empty());
    assert!(matches!(reader.read_u8(), Err(Error::Eof)));
}

#[test]
fn buffered_bytes_resolve() {
    let data = [1_u8, 2, 3];
    let lent = BufferedBytes::Data(&data[..]);
    assert_eq!(lent.as_slice(&[9, 9]), &[1, 2, 3]);
    let scratch = BufferedBytes::Scratch;
    assert_eq!(scratch.as_slice(&[9, 9]), &[9, 9]);
}
