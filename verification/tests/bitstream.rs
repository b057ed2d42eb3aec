use lzwpack::bitstream::BitStream;

#[test]
fn test_read_1() {
    let data: Vec<u8> = (0..=8).collect();
    let mut stream = BitStream::read_stream(data, 9).unwrap();
    assert_eq!(stream.next(), Some(0b000000000));
    assert_eq!(stream.next(), Some(0b000000100));
    assert_eq!(stream.next(), Some(0b000010000));
    assert_eq!(stream.next(), Some(0b000110000));
    assert_eq!(stream.next(), Some(0b010000000));
    assert_eq!(stream.next(), Some(0b101000001));
    assert_eq!(stream.next(), Some(0b100000011));
    assert_eq!(stream.next(), Some(0b100001000));
    assert_eq!(stream.next(), None);
}

#[test]
fn test_read_2() {
    let data: Vec<u8> = (0..=8).collect();
    let mut stream = BitStream::read_stream(data, 12).unwrap();
    assert_eq!(stream.next(), Some(0b000000000000));
    assert_eq!(stream.next(), Some(0b000100000010));
    assert_eq!(stream.next(), Some(0b000000110000));
    assert_eq!(stream.next(), Some(0b010000000101));
    assert_eq!(stream.next(), Some(0b000001100000));
    assert_eq!(stream.next(), Some(0b011100001000));
    assert_eq!(stream.next(), None);
}

#[test]
fn test_read_3() {
    let data: Vec<u8> = (0..=8).collect();
    let mut stream = BitStream::read_stream(data, 16).unwrap();
    assert_eq!(stream.next(), Some(0b0000000000000001));
    assert_eq!(stream.next(), Some(0b0000001000000011));
    assert_eq!(stream.next(), Some(0b0000010000000101));
    assert_eq!(stream.next(), Some(0b0000011000000111));
    assert_eq!(stream.next(), Some(0b0000100000000000));
    assert_eq!(stream.next(), None);
}

#[test]
fn test_write_1() {
    let mut stream = BitStream::write_stream(9).unwrap();
    stream.write(0b000000000).unwrap();
    stream.write(0b000000100).unwrap();
    stream.write(0b000010000).unwrap();
    stream.write(0b000110000).unwrap();
    stream.write(0b010000000).unwrap();
    stream.write(0b101000001).unwrap();
    stream.write(0b100000011).unwrap();
    stream.write(0b100001000).unwrap();
    stream.flush().unwrap();
    let data = stream.into_bytes();
    assert_eq!(data, (0..=8).collect::<Vec<u8>>());
}

#[test]
fn test_write_2() {
    let mut stream = BitStream::write_stream(12).unwrap();
    stream.write(0b000000000000).unwrap();
    stream.write(0b000100000010).unwrap();
    stream.write(0b000000110000).unwrap();
    stream.write(0b010000000101).unwrap();
    stream.write(0b000001100000).unwrap();
    stream.write(0b011100001000).unwrap();
    stream.flush().unwrap();
    let data = stream.into_bytes();
    assert_eq!(data, (0..=8).collect::<Vec<u8>>());
}

#[test]
fn test_write_3() {
    let mut stream = BitStream::write_stream(16).unwrap();
    stream.write(0b0000000000000001).unwrap();
    stream.write(0b0000001000000011).unwrap();
    stream.write(0b0000010000000101).unwrap();
    stream.write(0b0000011000000111).unwrap();
    stream.write(0b0000100000000000).unwrap();
    stream.flush().unwrap();
    let data = stream.into_bytes();
    assert_eq!(data, (0..=8).chain(0..=0).collect::<Vec<u8>>());
}
