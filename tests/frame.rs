use neo_live::frame::FrameReader;
use neo_live::encode_frame;

fn feed(reader: &mut FrameReader, bytes: &[u8]) {
    reader.push(bytes);
}

#[test]
fn test_frame_reader_parsing() {
    let mut reader = FrameReader::new();
    feed(&mut reader, &u32::to_be_bytes(5));
    feed(&mut reader, b"hello");
    feed(&mut reader, &u32::to_be_bytes(3));
    feed(&mut reader, b"bye");

    let frame1 = reader.next_frame().unwrap();
    assert_eq!(frame1, b"hello");

    let frame2 = reader.next_frame().unwrap();
    assert_eq!(frame2, b"bye");
}

#[test]
fn encode_frame_prefixes_big_endian_length() {
    assert_eq!(encode_frame(b"abc"), vec![0, 0, 0, 3, b'a', b'b', b'c']);
    assert_eq!(encode_frame(b""), vec![0, 0, 0, 0]);
    let long = vec![7u8; 0x0102];
    let framed = encode_frame(&long);
    assert_eq!(&framed[..4], &[0, 0, 1, 2]);
    assert_eq!(framed.len(), 4 + 0x0102);
}

#[test]
fn frame_waits_for_every_byte() {
    let framed = encode_frame(b"fragmented");
    let mut reader = FrameReader::new();
    for (i, b) in framed.iter().enumerate() {
        assert_eq!(reader.next_frame(), None);
        assert_eq!(reader.buffered(), i);
        reader.push(&[*b]);
    }
    assert_eq!(reader.next_frame(), Some(b"fragmented".to_vec()));
    assert_eq!(reader.buffered(), 0);
    assert_eq!(reader.next_frame(), None);
}

#[test]
fn frame_split_anywhere_reads_the_same() {
    let mut stream = encode_frame(b"first");
    stream.extend_from_slice(&encode_frame(b""));
    stream.extend_from_slice(&encode_frame(b"third one"));
    for cut in 0..=stream.len() {
        let mut reader = FrameReader::new();
        reader.push(&stream[..cut]);
        let mut got = Vec::new();
        while let Some(f) = reader.next_frame() {
            got.push(f);
        }
        reader.push(&stream[cut..]);
        while let Some(f) = reader.next_frame() {
            got.push(f);
        }
        assert_eq!(got, vec![b"first".to_vec(), b"".to_vec(), b"third one".to_vec()]);
        assert_eq!(reader.buffered(), 0);
    }
}

#[test]
fn frame_keeps_bytes_of_the_next_frame() {
    let mut reader = FrameReader::new();
    reader.push(&[0, 0, 0, 2, 7, 8, 0, 0]);
    assert_eq!(reader.next_frame(), Some(vec![7, 8]));
    assert_eq!(reader.buffered(), 2);
    assert_eq!(reader.next_frame(), None);
    reader.push(&[0, 1, 9]);
    assert_eq!(reader.next_frame(), Some(vec![9]));
}
