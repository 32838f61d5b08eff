use chat::frame::{pack_message, parse_frame, DecodeError, Opcode};

fn encode(op: Opcode, payload: &[u8], key: Option<[u8; 4]>) -> Vec<u8> {
    match pack_message(op, payload, key) {
        Ok(v) => v,
        Err(e) => panic!("encode failed: {:?}", e),
    }
}

#[test]
fn decode_unmasked_hello() {
    let bytes = [0x81u8, 0x05, b'H', b'e', b'l', b'l', b'o'];
    let (f, n) = parse_frame(&bytes).unwrap();
    assert_eq!(f.opcode, Opcode::Text);
    assert_eq!(f.payload, b"Hello".to_vec());
    assert!(f.fin);
    assert_eq!(f.masking_key, None);
    assert_eq!(n, 7);
}

#[test]
fn decode_masked_hello() {
    let m = [0x37u8, 0xfa, 0x21, 0x3d];
    let mut bytes = vec![0x81u8, 0x85, m[0], m[1], m[2], m[3]];
    for (i, c) in b"Hello".iter().enumerate() {
        bytes.push(c ^ m[i % 4]);
    }
    let (f, n) = parse_frame(&bytes).unwrap();
    assert_eq!(f.opcode, Opcode::Text);
    assert_eq!(f.payload, b"Hello".to_vec());
    assert_eq!(f.masking_key, Some(m));
    assert_eq!(n, 11);
}

#[test]
fn encode_text_hi() {
    assert_eq!(encode(Opcode::Text, b"Hi", None), vec![0x81u8, 0x02, b'H', b'i']);
}

#[test]
fn rsv1_is_unsupported_extension() {
    assert_eq!(parse_frame(&[0xC1u8]).err(), Some(DecodeError::UnsupportedExtension));
    assert_eq!(
        parse_frame(&[0xC1u8, 0x02, b'H', b'i']).err(),
        Some(DecodeError::UnsupportedExtension)
    );
    assert_eq!(parse_frame(&[0xA1u8, 0x00]).err(), Some(DecodeError::UnsupportedExtension));
    assert_eq!(parse_frame(&[0x91u8, 0x00]).err(), Some(DecodeError::UnsupportedExtension));
}

#[test]
fn length_field_selection() {
    let f0 = encode(Opcode::Binary, &[], None);
    assert_eq!(f0, vec![0x82u8, 0x00]);

    let f125 = encode(Opcode::Binary, &vec![7u8; 125], None);
    assert_eq!(f125[1], 125);
    assert_eq!(f125.len(), 2 + 125);

    let f126 = encode(Opcode::Binary, &vec![7u8; 126], None);
    assert_eq!(&f126[1..4], &[126u8, 0x00, 0x7E]);
    assert_eq!(f126.len(), 4 + 126);

    let f65535 = encode(Opcode::Binary, &vec![7u8; 65535], None);
    assert_eq!(&f65535[1..4], &[126u8, 0xFF, 0xFF]);
    assert_eq!(f65535.len(), 4 + 65535);

    let f65536 = encode(Opcode::Binary, &vec![7u8; 65536], None);
    assert_eq!(&f65536[1..10], &[127u8, 0, 0, 0, 0, 0, 0x01, 0x00, 0x00]);
    assert_eq!(f65536.len(), 10 + 65536);
}

#[test]
fn round_trip_unmasked() {
    let ops = [
        Opcode::Cont,
        Opcode::Text,
        Opcode::Binary,
        Opcode::NonControl(3),
        Opcode::NonControl(7),
        Opcode::Close,
        Opcode::Ping,
        Opcode::Pong,
        Opcode::Control(11),
        Opcode::Control(15),
    ];
    for len in [0usize, 1, 125, 126, 300, 65535, 65536, 70000] {
        let payload: Vec<u8> = (0..len).map(|i| (i * 31 % 251) as u8).collect();
        for op in ops.iter() {
            let bytes = encode(*op, &payload, None);
            let (f, n) = parse_frame(&bytes).unwrap();
            assert_eq!(f.opcode, *op);
            assert_eq!(f.payload, payload);
            assert_eq!(n, bytes.len());
        }
    }
}

#[test]
fn masking_twice_restores_payload() {
    let key = [0x12u8, 0x34, 0x56, 0x78];
    for len in [0usize, 1, 3, 4, 5, 200] {
        let payload: Vec<u8> = (0..len).map(|i| (i * 7) as u8).collect();
        let bytes = encode(Opcode::Binary, &payload, Some(key));
        assert_eq!(bytes[1] & 0x80, 0x80);
        let (f, n) = parse_frame(&bytes).unwrap();
        assert_eq!(f.payload, payload);
        assert_eq!(f.masking_key, Some(key));
        assert_eq!(n, bytes.len());
    }
}

#[test]
fn masked_encoding_exact_bytes() {
    let key = [1u8, 2, 3, 4];
    let bytes = encode(Opcode::Text, b"Hello", Some(key));
    assert_eq!(
        bytes,
        vec![0x81u8, 0x85, 1, 2, 3, 4, b'H' ^ 1, b'e' ^ 2, b'l' ^ 3, b'l' ^ 4, b'o' ^ 1]
    );
}

#[test]
fn short_buffers_are_incomplete() {
    assert_eq!(parse_frame(&[]).err(), Some(DecodeError::Incomplete));
    assert_eq!(parse_frame(&[0x81u8]).err(), Some(DecodeError::Incomplete));
    assert_eq!(parse_frame(&[0x81u8, 0x05, b'H']).err(), Some(DecodeError::Incomplete));
    assert_eq!(parse_frame(&[0x81u8, 126, 0x00]).err(), Some(DecodeError::Incomplete));
    assert_eq!(parse_frame(&[0x81u8, 127, 0, 0, 0]).err(), Some(DecodeError::Incomplete));
    assert_eq!(parse_frame(&[0x81u8, 0x81, 1, 2]).err(), Some(DecodeError::Incomplete));
}

#[test]
fn oversized_length_is_rejected() {
    let bytes = [0x82u8, 127, 0x80, 0, 0, 0, 0, 0, 0, 0];
    assert_eq!(parse_frame(&bytes).err(), Some(DecodeError::TooLong));
    let over_cap = [0x82u8, 127, 0, 0, 0, 0, 0x01, 0x00, 0x00, 0x01];
    assert_eq!(parse_frame(&over_cap).err(), Some(DecodeError::TooLong));
    let at_cap = [0x82u8, 127, 0, 0, 0, 0, 0x01, 0x00, 0x00, 0x00];
    assert_eq!(parse_frame(&at_cap).err(), Some(DecodeError::Incomplete));
}

#[test]
fn decode_takes_only_the_first_frame() {
    let mut bytes = encode(Opcode::Text, b"one", None);
    let first = bytes.len();
    bytes.extend(encode(Opcode::Binary, b"two", None));
    let (f, n) = parse_frame(&bytes).unwrap();
    assert_eq!(n, first);
    assert_eq!(f.payload, b"one".to_vec());
    let (g, m) = parse_frame(&bytes[n..]).unwrap();
    assert_eq!(g.opcode, Opcode::Binary);
    assert_eq!(g.payload, b"two".to_vec());
    assert_eq!(m, bytes.len() - first);
}

#[test]
fn reserved_opcodes_keep_their_nibble() {
    let (f, _) = parse_frame(&[0x85u8, 0x00]).unwrap();
    assert_eq!(f.opcode, Opcode::NonControl(5));
    let (g, _) = parse_frame(&[0x8Cu8, 0x00]).unwrap();
    assert_eq!(g.opcode, Opcode::Control(12));
    let (h, _) = parse_frame(&[0x09u8, 0x00]).unwrap();
    assert_eq!(h.opcode, Opcode::Ping);
    assert!(!h.fin);
}
