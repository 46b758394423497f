use sonic_protocol::framing::{Frame, FrameHeader, FrameType, FramingError, PhyMode};

fn sample_frame() -> Frame {
    let mut h = FrameHeader::new(PhyMode::OfdmQpsk, FrameType::Data, 1);
    h.seq = 0x1234;
    h.ack = 0x00FF;
    h.sack = 0xDEAD_BEEF;
    Frame::new(h, b"acoustic messenger payload".to_vec())
}

#[test]
fn serialize_parse_roundtrip() {
    let frame = sample_frame();
    let bytes = frame.serialize();
    let parsed = Frame::parse(&bytes).unwrap();
    assert_eq!(parsed, frame);
}

#[test]
fn crc_catches_payload_corruption() {
    let mut bytes = sample_frame().serialize();
    let mid = bytes.len() / 2;
    bytes[mid] ^= 0x01;
    assert_eq!(Frame::parse(&bytes), Err(FramingError::BadCrc));
}

#[test]
fn rejects_bad_magic_and_short() {
    let mut bytes = sample_frame().serialize();
    bytes[0] = 0x00;
    assert_eq!(Frame::parse(&bytes), Err(FramingError::BadMagic));
    assert_eq!(Frame::parse(&[0u8; 4]), Err(FramingError::TooShort));
}

#[test]
fn empty_payload_control_frame() {
    let h = FrameHeader::new(PhyMode::Css, FrameType::Ack, 0);
    let frame = Frame::new(h, Vec::new());
    let bytes = frame.serialize();
    assert_eq!(Frame::parse(&bytes).unwrap(), frame);
}

/// The CRC-32 of IEEE 802.3, bit by bit.
fn slow_crc(data: &[u8]) -> u32 {
    let mut c = 0xFFFF_FFFFu32;
    for &b in data {
        c ^= b as u32;
        for _ in 0..8 {
            c = if c & 1 == 1 { (c >> 1) ^ 0xEDB8_8320 } else { c >> 1 };
        }
    }
    !c
}

#[test]
fn checksum_ends_the_frame() {
    assert_eq!(slow_crc(b"123456789"), 0xCBF4_3926);
    let bytes = sample_frame().serialize();
    let n = bytes.len() - 4;
    assert_eq!(bytes[n..], slow_crc(&bytes[..n]).to_be_bytes());
}

#[test]
fn header_has_twelve_bytes() {
    let bytes = sample_frame().serialize();
    assert_eq!(bytes.len(), 12 + 26 + 4);
    assert_eq!(bytes[0], 0x2B);
    assert_eq!(&bytes[4..12], &[0x12, 0x34, 0x00, 0xFF, 0xDE, 0xAD, 0xBE, 0xEF]);
    assert_eq!(&bytes[12..38], b"acoustic messenger payload");
}

#[test]
fn every_single_flip_is_refused() {
    let bytes = sample_frame().serialize();
    for i in 0..bytes.len() {
        for bit in 0..8 {
            let mut bad = bytes.clone();
            bad[i] ^= 1 << bit;
            assert!(Frame::parse(&bad).is_err());
        }
    }
}

/// Puts the right checksum behind a damaged header.
fn resealed(mut bytes: Vec<u8>) -> Vec<u8> {
    let n = bytes.len() - 4;
    let crc = slow_crc(&bytes[..n]).to_be_bytes();
    bytes[n..].copy_from_slice(&crc);
    bytes
}

#[test]
fn version_and_fields_are_checked() {
    let good = sample_frame().serialize();
    let mut seen_version = false;
    let mut seen_field = false;
    for i in 1..4 {
        for value in 0..=255u8 {
            let mut bytes = good.clone();
            bytes[i] = value;
            match Frame::parse(&resealed(bytes)) {
                Err(FramingError::BadVersion) => seen_version = true,
                Err(FramingError::BadField) => seen_field = true,
                Err(e) => panic!("unexpected {e:?}"),
                Ok(_) => {}
            }
        }
    }
    assert!(seen_version);
    assert!(seen_field);
}

#[test]
fn modes_have_numbers_and_names() {
    let modes = [PhyMode::Css, PhyMode::Mfsk, PhyMode::OfdmQpsk, PhyMode::Ofdm16Qam];
    let names = ["CSS", "MFSK", "OFDM-QPSK", "OFDM-16QAM"];
    for (i, mode) in modes.iter().enumerate() {
        assert_eq!(mode.to_bits(), i as u8);
        assert_eq!(PhyMode::from_bits(i as u8), Some(*mode));
        assert_eq!(mode.label(), names[i]);
        assert_eq!(mode.is_ofdm(), i >= 2);
    }
    assert_eq!(PhyMode::from_bits(4), None);
}
