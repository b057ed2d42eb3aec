use lzwpack::bitstream::BitStream;
use lzwpack::lzw::compress;
use lzwpack::lzw::decode;
use lzwpack::lzw::decompress;
use lzwpack::lzw::encode;
use lzwpack::CodecError;

#[test]
fn empty_input_yields_no_codes() {
    let input: Vec<u8> = Vec::new();
    let codes = encode(&input, 512).unwrap();
    assert_eq!(codes, Vec::<u16>::new());
    let out = decode(&Vec::new()).unwrap();
    assert_eq!(out, Vec::<u8>::new());
}

#[test]
fn single_byte_round_trip() {
    let input = vec![65u8];
    let codes = encode(&input, 512).unwrap();
    assert_eq!(codes, vec![65u16]);
    let out = decode(&codes).unwrap();
    assert_eq!(out, vec![65u8]);
}

#[test]
fn abababa_compresses_and_round_trips() {
    let input = b"ABABABA".to_vec();
    let codes = encode(&input, 512).unwrap();
    assert!(codes.len() < input.len());
    assert_eq!(codes, vec![65u16, 66, 257, 259]);
    let out = decode(&codes).unwrap();
    assert_eq!(out, input);
}

#[test]
fn self_referential_code_decodes() {
    // 257 is the very code the decoder is about to create
    let codes = vec![65u16, 257];
    let out = decode(&codes).unwrap();
    assert_eq!(out, vec![65u8, 65, 65]);
}

#[test]
fn longer_text_round_trips() {
    let input = b"TOBEORNOTTOBEORTOBEORNOT".to_vec();
    let codes = encode(&input, 4096).unwrap();
    assert!(codes.len() < input.len());
    let out = decode(&codes).unwrap();
    assert_eq!(out, input);
}

#[test]
fn bytes_with_sentinel_pattern_round_trip() {
    // the byte pair 1, 0 collides with the bootstrap entry at code 256 by
    // content; encoder and decoder must still mirror each other
    let input = vec![1u8, 0, 2, 1, 0, 1, 0];
    let codes = encode(&input, 512).unwrap();
    let out = decode(&codes).unwrap();
    assert_eq!(out, input);
}

#[test]
fn pack_round_trip_with_artifact() {
    // one 9-bit word fills two bytes; reading them back yields the word and
    // one zero word made of padding
    let mut w = BitStream::write_stream(9).unwrap();
    w.write(65).unwrap();
    w.flush().unwrap();
    let bytes = w.into_bytes();
    assert_eq!(bytes.len(), 2);
    let mut r = BitStream::read_stream(bytes, 9).unwrap();
    assert_eq!(r.next(), Some(65));
    assert_eq!(r.next(), Some(0));
    assert_eq!(r.next(), None);
}

#[test]
fn pack_round_trip_exact_on_byte_boundary() {
    // 3 words of 16 bits end on a byte boundary: no artifact
    let mut w = BitStream::write_stream(16).unwrap();
    w.write(1).unwrap();
    w.write(2).unwrap();
    w.write(3).unwrap();
    w.flush().unwrap();
    let bytes = w.into_bytes();
    assert_eq!(bytes.len(), 6);
    let mut r = BitStream::read_stream(bytes, 16).unwrap();
    assert_eq!(r.next(), Some(1));
    assert_eq!(r.next(), Some(2));
    assert_eq!(r.next(), Some(3));
    assert_eq!(r.next(), None);
}

#[test]
fn narrow_width_pack_round_trip() {
    // width 3: one word in one byte leaves two all-padding words
    let mut w = BitStream::write_stream(3).unwrap();
    w.write(0b101).unwrap();
    w.flush().unwrap();
    let bytes = w.into_bytes();
    assert_eq!(bytes, vec![0b10100000u8]);
    let mut r = BitStream::read_stream(bytes, 3).unwrap();
    assert_eq!(r.next(), Some(0b101));
    assert_eq!(r.next(), Some(0));
    assert_eq!(r.next(), Some(0));
    assert_eq!(r.next(), None);
}

#[test]
fn invalid_width_is_refused() {
    assert_eq!(BitStream::read_stream(vec![1u8], 0).err(), Some(CodecError::InvalidWidth));
    assert_eq!(BitStream::write_stream(17).err(), Some(CodecError::InvalidWidth));
    assert_eq!(compress(&vec![1u8], 0).err(), Some(CodecError::InvalidWidth));
    assert_eq!(decompress(&vec![1u8], 17).err(), Some(CodecError::InvalidWidth));
}

#[test]
fn oversized_word_is_refused() {
    let mut w = BitStream::write_stream(9).unwrap();
    assert_eq!(w.write(512), Err(CodecError::WordTooLarge));
    assert_eq!(w.write(511), Ok(()));
}

#[test]
fn capacity_overflow_is_refused() {
    // fewer codes than the 257 bootstrap entries can never fit
    assert_eq!(encode(&Vec::new(), 256).err(), Some(CodecError::CapacityExceeded));
    // a width of 8 addresses only 256 codes
    assert_eq!(compress(&vec![1u8], 8).err(), Some(CodecError::CapacityExceeded));
}

#[test]
fn code_gap_is_refused() {
    assert_eq!(decode(&vec![300u16]).err(), Some(CodecError::InvalidCode));
    // after one code the next free code is 257, so 300 is a gap
    assert_eq!(decode(&vec![65u16, 300]).err(), Some(CodecError::InvalidCode));
}

#[test]
fn pipeline_round_trips_up_to_padding() {
    // 4 codes of 9 bits do not end on a byte boundary, so the decoder sees
    // one extra zero code and appends its entry, the single byte 0
    let input = b"ABABABA".to_vec();
    let bytes = compress(&input, 9).unwrap();
    let out = decompress(&bytes, 9).unwrap();
    assert_eq!(out, b"ABABABA\x00".to_vec());
}

#[test]
fn pipeline_round_trips_exactly_on_boundary() {
    // these 8 bytes emit exactly 8 codes: 72 bits, a whole number of bytes
    let input: Vec<u8> = (0..=7).collect();
    let bytes = compress(&input, 9).unwrap();
    assert_eq!(bytes.len(), 9);
    let out = decompress(&bytes, 9).unwrap();
    assert_eq!(out, input);
}
