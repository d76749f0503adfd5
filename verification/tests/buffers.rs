use bitwrap::BitWrapError;
use bitwrap::BitWrapExt;

// The byte-buffer implementation copies itself on pack and appends the
// whole source on unpack.
#[test]
fn test_vec_u8_pack_unpack() {
    let data: Vec<u8> = vec![1, 2, 3, 4];
    let mut buffer = [0u8; 6];
    buffer[4] = 0xEE;
    buffer[5] = 0xFF;
    assert_eq!(data.pack(&mut buffer), Ok(4));
    assert_eq!(&buffer, &[1, 2, 3, 4, 0xEE, 0xFF]);

    let mut short = [0u8; 3];
    assert_eq!(data.pack(&mut short), Err(BitWrapError::BufferTooShort));

    let mut sink: Vec<u8> = vec![9];
    assert_eq!(sink.unpack(&[1, 2, 3]), Ok(3));
    assert_eq!(sink.as_slice(), &[9, 1, 2, 3]);
}

// A list of byte buffers packs its items one after another; unpacking
// grows the list until the source is exhausted.
#[test]
fn test_vec_of_vecs() {
    let items: Vec<Vec<u8>> = vec![vec![1, 2], vec![3]];
    let mut buffer = [0u8; 4];
    assert_eq!(items.pack(&mut buffer), Ok(3));
    assert_eq!(&buffer[..3], &[1, 2, 3]);

    // A fresh byte-buffer item consumes the whole remaining source, so
    // unpacking yields one item holding everything.
    let mut read: Vec<Vec<u8>> = Vec::new();
    assert_eq!(read.unpack(&[5, 6, 7]), Ok(3));
    assert_eq!(read.len(), 1);
    assert_eq!(read[0].as_slice(), &[5, 6, 7]);

    // An empty source unpacks into no items at all.
    let mut read: Vec<Vec<u8>> = Vec::new();
    assert_eq!(read.unpack(&[]), Ok(0));
    assert_eq!(read.len(), 0);
}
