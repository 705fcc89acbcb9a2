use subspace_core_rust::framing::{extract_message, frame, MAX_MESSAGE_CONTENTS_LENGTH};

#[test]
fn frame_prefixes_little_endian_length() {
    let framed = frame(&[7u8; 300]).unwrap();
    assert_eq!(&framed[0..2], &[44, 1]);
    assert_eq!(framed.len(), 302);
    assert!(frame(&vec![0u8; MAX_MESSAGE_CONTENTS_LENGTH + 1]).is_none());
    assert_eq!(frame(&vec![1u8; MAX_MESSAGE_CONTENTS_LENGTH]).unwrap()[0..2], [0xff, 0xff]);
}

#[test]
fn extract_reads_the_first_frame() {
    let mut stream = frame(b"hello").unwrap();
    stream.extend(frame(b"world!").unwrap());
    let (first, used) = extract_message(&stream).unwrap();
    assert_eq!(first, b"hello".to_vec());
    assert_eq!(used, 7);
    let (second, used2) = extract_message(&stream[used..]).unwrap();
    assert_eq!(second, b"world!".to_vec());
    assert_eq!(used2, 8);
}

#[test]
fn extract_waits_for_a_whole_frame() {
    let framed = frame(&[1, 2, 3, 4]).unwrap();
    assert!(extract_message(&framed[..5]).is_none());
    assert!(extract_message(&framed[..2]).is_none());
    assert!(extract_message(&[]).is_none());
}
