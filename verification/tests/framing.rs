use key_art::framing::{
    accepts_decoding, decode_image, frame_payload, payload_of, search_step, EncodeError, SearchStep,
    FIRST_SEARCH_SIZE, SEARCH_END_SIZE,
};

#[test]
fn frame_prefixes_length() {
    assert_eq!(frame_payload(&[7, 8, 9], false), Ok(vec![3, 7, 8, 9]));
    assert_eq!(frame_payload(&[], false), Ok(vec![0]));
}

#[test]
fn frame_rejects_long_payloads() {
    let long = vec![1u8; 129];
    assert_eq!(frame_payload(&long, false), Err(EncodeError::TooLong));
    let limit = vec![1u8; 128];
    assert_eq!(frame_payload(&limit, false).unwrap().len(), 129);
}

#[test]
fn frame_skipping_the_check_wraps_the_length_byte() {
    let long = vec![5u8; 300];
    let f = frame_payload(&long, true).unwrap();
    assert_eq!(f[0], 44);
    assert_eq!(f.len(), 301);
}

#[test]
fn error_messages() {
    assert_eq!(EncodeError::TooLong.message(), "Byte length is too big");
    assert_eq!(EncodeError::NoFittingSize.message(), "Couldn't encode the bytes");
}

#[test]
fn decode_image_pads_and_truncates() {
    assert_eq!(decode_image(&[3, 1, 2]), vec![3, 1, 2, 0]);
    assert_eq!(decode_image(&[1, 9, 9, 9]), vec![1, 9]);
    assert_eq!(decode_image(&[0, 4]), vec![0]);
}

#[test]
fn payload_drops_length_byte() {
    assert_eq!(payload_of(&[2, 65, 66, 67]), vec![65, 66]);
    assert_eq!(payload_of(&[3, 65]), vec![65, 0, 0]);
    assert_eq!(payload_of(&[0]), Vec::<u8>::new());
}

#[test]
fn accepts_matching_decodings() {
    let f = frame_payload(&[10, 20], false).unwrap();
    assert!(accepts_decoding(&f, &[2, 10, 20]));
    assert!(accepts_decoding(&f, &[2, 10, 20, 99, 98]));
    assert!(!accepts_decoding(&f, &[2, 10, 21]));
    assert!(!accepts_decoding(&f, &[3, 10, 20, 0]));
    assert!(!accepts_decoding(&f, &[]));
    let empty = frame_payload(&[], false).unwrap();
    assert!(accepts_decoding(&empty, &[]));
    assert!(accepts_decoding(&empty, &[0]));
    assert!(!accepts_decoding(&empty, &[1, 0]));
}

#[test]
fn accepted_decoding_gives_back_payload() {
    let payload = b"Hello, World!".to_vec();
    let f = frame_payload(&payload, false).unwrap();
    let mut decoded = f.clone();
    decoded.extend_from_slice(&[0, 0, 0]);
    assert!(accepts_decoding(&f, &decoded));
    assert_eq!(decode_image(&decoded), f);
    assert_eq!(payload_of(&decoded), payload);
}

#[test]
fn search_tries_sizes_in_turn() {
    let f = frame_payload(&[10, 20], false).unwrap();
    assert_eq!(search_step(&f, 1, &[2, 10, 20]), SearchStep::Accept);
    assert_eq!(search_step(&f, 1, &[2, 10, 21]), SearchStep::TrySize(2));
    assert_eq!(search_step(&f, 30, &[]), SearchStep::TrySize(31));
    assert_eq!(search_step(&f, 31, &[]), SearchStep::GiveUp);
    assert_eq!(search_step(&f, 31, &[2, 10, 20, 7]), SearchStep::Accept);
    assert_eq!(FIRST_SEARCH_SIZE, 1);
    assert_eq!(SEARCH_END_SIZE, 32);
}

#[test]
fn empty_stream_stands_for_empty_payload() {
    assert_eq!(decode_image(&[]), vec![0]);
    assert_eq!(payload_of(&[]), Vec::<u8>::new());
    let f = frame_payload(&[], false).unwrap();
    assert!(accepts_decoding(&f, &[]));
    assert_eq!(decode_image(&[]), f);
}
