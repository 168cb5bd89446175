use rack_runtime::sendable::Sendable;

#[test]
fn str_sendable() {
    let mut buffer = vec![0u8; 100];

    let content = b"testing stuff".to_vec();

    content.serialize(&mut buffer, 0).expect("Should work");

    let (deserialized, _): (Vec<u8>, usize) =
        Sendable::deserialize(buffer.as_slice(), 0).expect("Should work");

    assert_eq!(content, deserialized);
}

#[test]
fn str_serialize_buffer_too_small() {
    let mut buffer = vec![0u8; 3];
    let content = b"testing".to_vec();
    assert!(content.serialize(&mut buffer, 0).is_err());
}

#[test]
fn text_is_length_then_bytes() {
    let mut buffer = vec![9u8; 6];
    let end = b"abc".to_vec().serialize(&mut buffer, 1).expect("fits");
    assert_eq!(end, 5);
    assert_eq!(buffer, vec![9, 3, b'a', b'b', b'c', 9]);
}

#[test]
fn text_longer_than_its_prefix_is_refused() {
    let mut buffer = vec![0u8; 400];
    let name = vec![b'x'; 256];
    assert!(name.serialize(&mut buffer, 0).is_err());
}

#[test]
fn text_cut_short_is_refused() {
    let buffer = [5u8, b'a', b'b'];
    let r: Result<(Vec<u8>, usize), ()> = Sendable::deserialize(&buffer[..], 0);
    assert_eq!(r, Err(()));
}

#[test]
fn text_must_be_utf8() {
    let mut buffer = vec![0u8; 8];
    assert!(vec![0xFFu8].serialize(&mut buffer, 0).is_err());
    assert!(vec![0xC3u8].serialize(&mut buffer, 0).is_err());
    assert!(vec![0xED, 0xA0, 0x80].serialize(&mut buffer, 0).is_err());
    let accented = "é✓".as_bytes().to_vec();
    assert_eq!(accented.serialize(&mut buffer, 0), Ok(6));
    let (back, n): (Vec<u8>, usize) = Sendable::deserialize(buffer.as_slice(), 0).expect("reads");
    assert_eq!((back, n), (accented, 6));
    let r: Result<(Vec<u8>, usize), ()> = Sendable::deserialize(&[2, b'a', 0xFF][..], 0);
    assert_eq!(r, Err(()));
}
