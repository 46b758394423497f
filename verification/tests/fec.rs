use sonic_protocol::fec::galois::{
    div, inverse, mul, poly_add, poly_div, poly_eval, poly_mul, poly_scale, pow,
};
use sonic_protocol::fec::interleave::{deinterleave, interleave};
use sonic_protocol::fec::{FecCodec, FecError, RsCodec, RsError};

#[test]
fn mul_div_are_inverse() {
    for a in 1u8..=255 {
        for b in 1u8..=255 {
            let p = mul(a, b);
            assert_eq!(div(p, b), a);
        }
    }
}

#[test]
fn inverse_is_correct() {
    for a in 1u8..=255 {
        assert_eq!(mul(a, inverse(a)), 1);
    }
}

#[test]
fn pow_matches_repeated_mul() {
    let mut acc = 1u8;
    for p in 0..20 {
        assert_eq!(pow(2, p), acc);
        acc = mul(acc, 2);
    }
    assert_eq!(pow(2, -1), inverse(2));
}

#[test]
fn field_has_known_products() {
    assert_eq!(mul(0x80, 2), 0x1D);
    assert_eq!(mul(0x53, 0xCA), 0x8F);
    assert_eq!(mul(0, 77), 0);
    assert_eq!(div(0, 77), 0);
    assert_eq!(pow(2, 8), 0x1D);
    assert_eq!(pow(2, 255), 1);
}

#[test]
fn polynomials_compute() {
    assert_eq!(poly_scale(&[1, 2, 3], 2), vec![2, 4, 6]);
    assert_eq!(poly_add(&[1, 2, 3], &[5, 7]), vec![1, 7, 4]);
    assert_eq!(poly_mul(&[1, 1], &[1, 2]), vec![1, 3, 2]);
    assert_eq!(poly_eval(&[1, 3, 2], 1), 0);
    assert_eq!(poly_eval(&[1, 3, 2], 2), 0);
    let (q, r) = poly_div(&[1, 3, 2], &[1, 1]);
    assert_eq!(q, vec![1, 2]);
    assert_eq!(r, vec![0]);
}

#[test]
fn interleave_deinterleave_identity() {
    let blocks = vec![
        vec![1u8, 2, 3, 4],
        vec![10, 20, 30, 40],
        vec![100, 101, 102, 103],
    ];
    let flat = interleave(&blocks);
    let back = deinterleave(&flat, 3, 4);
    assert_eq!(blocks, back);
}

#[test]
fn burst_is_spread_across_words() {
    let blocks: Vec<Vec<u8>> = (0..4).map(|_| vec![0u8; 8]).collect();
    let mut flat = interleave(&blocks);
    for x in flat.iter_mut().skip(5).take(4) {
        *x = 0xFF;
    }
    let back = deinterleave(&flat, 4, 8);
    for word in &back {
        let corrupted = word.iter().filter(|&&b| b != 0).count();
        assert!(corrupted <= 1, "burst hit one word {corrupted} times");
    }
}

#[test]
fn words_are_sent_column_by_column() {
    assert_eq!(interleave(&[vec![1, 2], vec![3, 4], vec![5, 6]]), vec![1, 3, 5, 2, 4, 6]);
    assert!(interleave(&[]).is_empty());
}

#[test]
fn roundtrip_no_errors() {
    let fec = FecCodec::new(32, 16);
    let payload = b"The quick brown fox jumps over the lazy dog. ADL/1 acoustic link test.";
    let coded = fec.encode(payload);
    let decoded = fec.decode(&coded).unwrap();
    assert_eq!(&decoded[..payload.len()], payload);
}

#[test]
fn wide_burst_survives_thanks_to_interleaving() {
    let fec = FecCodec::new(32, 16);
    let payload: Vec<u8> = (0..128).map(|i| (i * 5 + 1) as u8).collect();
    let mut coded = fec.encode(&payload);
    for x in coded.iter_mut().skip(20).take(30) {
        *x ^= 0x5A;
    }
    let decoded = fec.decode(&coded).unwrap();
    assert_eq!(&decoded[..payload.len()], &payload[..]);
}

#[test]
fn longest_burst_survives() {
    let fec = FecCodec::new(32, 16);
    let payload: Vec<u8> = (0..128).map(|i| (i * 11) as u8).collect();
    let sent = fec.encode(&payload);
    for start in 0..sent.len() - 32 {
        let mut coded = sent.clone();
        for x in coded.iter_mut().skip(start).take(32) {
            *x ^= 0xFF;
        }
        assert_eq!(fec.decode(&coded), Ok(payload.clone()));
    }
}

#[test]
fn malformed_length_is_rejected() {
    let fec = FecCodec::new(16, 8);
    let coded = fec.encode(b"hi");
    let truncated = &coded[..coded.len() - 1];
    assert_eq!(fec.decode(truncated), Err(FecError::Malformed));
    assert_eq!(fec.decode(&[]), Err(FecError::Malformed));
}

#[test]
fn stream_lengths_are_whole_words() {
    let fec = FecCodec::new(32, 16);
    assert_eq!(fec.block_data_len(), 32);
    assert_eq!(fec.block_code_len(), 48);
    assert_eq!(fec.encoded_len(0), 48);
    assert_eq!(fec.encoded_len(32), 48);
    assert_eq!(fec.encoded_len(33), 96);
    assert_eq!(fec.encode(&[]).len(), 48);
    assert_eq!(fec.encode(&[7; 33]).len(), 96);
    assert_eq!(fec.decode(&fec.encode(&[7; 33])).unwrap().len(), 64);
}

#[test]
fn a_word_beyond_repair_fails_the_stream() {
    let fec = FecCodec::new(8, 4);
    let mut coded = fec.encode(b"12345678");
    for x in coded.iter_mut().take(6) {
        *x ^= 0x33;
    }
    match fec.decode(&coded) {
        Err(FecError::Rs(_)) => {}
        other => panic!("expected a refusal, got {other:?}"),
    }
}

#[test]
fn encode_decode_no_errors() {
    let rs = RsCodec::new(10);
    let msg = b"HELLO ADL/1 ACOUSTIC LINK";
    let enc = rs.encode(msg);
    assert_eq!(enc.len(), msg.len() + 10);
    let dec = rs.decode(&enc).unwrap();
    assert_eq!(dec, msg);
}

#[test]
fn check_bytes_are_those_of_the_generator() {
    let rs = RsCodec::new(2);
    assert_eq!(rs.nsym(), 2);
    assert_eq!(rs.max_correctable(), 1);
    assert_eq!(rs.encode(&[1]), vec![1, 3, 2]);
    assert_eq!(rs.decode(&[1, 3, 2]), Ok(vec![1]));
    assert_eq!(rs.decode(&[1, 3, 77]), Ok(vec![1]));
}

#[test]
fn corrects_up_to_t_errors() {
    let rs = RsCodec::new(16);
    let msg: Vec<u8> = (0..100).map(|i| (i * 7 + 3) as u8).collect();
    let mut enc = rs.encode(&msg);
    for (k, pos) in [3usize, 10, 20, 33, 50, 60, 80, 99].iter().enumerate() {
        enc[*pos] ^= (k as u8).wrapping_add(1).wrapping_mul(37);
    }
    let dec = rs.decode(&enc).unwrap();
    assert_eq!(dec, msg);
}

#[test]
fn corrects_burst_within_t() {
    let rs = RsCodec::new(16);
    let msg: Vec<u8> = (0..200).map(|i| (i % 251) as u8).collect();
    let mut enc = rs.encode(&msg);
    for pos in 40..48 {
        enc[pos] ^= 0xA5;
    }
    assert_eq!(rs.decode(&enc).unwrap(), msg);
}

#[test]
fn detects_uncorrectable_beyond_t() {
    let rs = RsCodec::new(8);
    let msg: Vec<u8> = (0..60).map(|i| (i * 3) as u8).collect();
    let mut any_wrong_silent = false;
    for trial in 0..40u8 {
        let mut enc = rs.encode(&msg);
        for e in 0..5usize {
            let pos = (trial as usize * 7 + e * 11) % enc.len();
            enc[pos] ^= (e as u8 + 1).wrapping_mul(53).wrapping_add(trial);
        }
        match rs.decode(&enc) {
            Err(_) => {}
            Ok(dec) if dec == msg => {}
            Ok(_) => any_wrong_silent = true,
        }
    }
    assert!(!any_wrong_silent, "RS silently produced wrong data beyond t errors");
}

#[test]
fn both_refusals_occur() {
    let rs = RsCodec::new(4);
    let enc = rs.encode(b"some data bytes");
    let mut too_many = false;
    let mut uncorrectable = false;
    for trial in 0..200usize {
        let mut word = enc.clone();
        for e in 0..3usize {
            let pos = (trial + e * 5) % word.len();
            word[pos] ^= (trial * 31 + e * 7 + 1) as u8;
        }
        match rs.decode(&word) {
            Err(RsError::TooManyErrors) => too_many = true,
            Err(RsError::Uncorrectable) => uncorrectable = true,
            Ok(_) => {}
        }
    }
    assert!(uncorrectable);
    let odd = RsCodec::new(3);
    let sent = odd.encode(b"odd number of checks");
    for trial in 0..200usize {
        let mut word = sent.clone();
        for e in 0..2usize {
            let pos = (trial + e * 3) % word.len();
            word[pos] ^= (trial * 17 + e * 5 + 1) as u8;
        }
        if odd.decode(&word) == Err(RsError::TooManyErrors) {
            too_many = true;
        }
    }
    assert!(too_many);
}

#[test]
fn fec_repairs_symbol_errors_end_to_end() {
    let fec = FecCodec::new(32, 16);
    let message = b"reed-solomon repairs demodulation errors";
    let mut inner = (message.len() as u16).to_be_bytes().to_vec();
    inner.extend_from_slice(message);
    let payload = fec.encode(&inner);

    let mut corrupted = payload.clone();
    for i in [1usize, 5, 9, 40, 41, 42] {
        if i < corrupted.len() {
            corrupted[i] ^= 0x7C;
        }
    }
    let decoded = fec.decode(&corrupted).expect("FEC failed to repair");
    let len = u16::from_be_bytes([decoded[0], decoded[1]]) as usize;
    assert_eq!(&decoded[2..2 + len], message);
}
