use sonic_protocol::acoustic_beacon::{
    beacon_duration_ms, beacon_tones, canonicalize, loudest_nibble, nibbles_to_nickname,
    nickname_to_nibbles, normalize_nickname, without_padding, BeaconGeometry, BeaconScan,
    DOMINANCE_KEY,
};
use sonic_protocol::bandplan::{Profile, Role};
use sonic_protocol::channel_check::{
    analysis_windows, chosen_name, clarity_label, is_enough, sample_count, select_mode, AudioSelection,
};
use sonic_protocol::commands::{
    may_start, must_run, parse_mode, parse_profile, parse_role, parse_test_mode,
};
use sonic_protocol::discovery::{
    beacon_offset_ms, entered_nickname, hash_bytes, hash_str, others, place_beacon, round_samples,
};
use sonic_protocol::framing::{Frame, PhyMode};
use sonic_protocol::self_test::{compare_frames, play_ms, test_frame, verdict, Diagnosis};
use sonic_protocol::session::ModePolicy;
use sonic_protocol::text::{is_blank, lowercase, trim_end, trimmed};

#[test]
fn canonicalize_matches_decode() {
    assert_eq!(canonicalize("alex!!"), "ALEX");
    assert_eq!(canonicalize("Sonic-Test-Long"), "SONICT");
}

#[test]
fn nicknames_survive_the_air() {
    for name in ["alex!!", "Sonic-Test-Long", "", "a_b_c", "Яна 42", "ZZZZZZZZ"] {
        assert_eq!(nibbles_to_nickname(&nickname_to_nibbles(name)), canonicalize(name));
        assert_eq!(canonicalize(&canonicalize(name)), canonicalize(name));
    }
    assert_eq!(canonicalize("Яна 42"), "42");
    assert_eq!(normalize_nickname("ab"), b"AB____".to_vec());
    assert_eq!(nickname_to_nibbles("A"), vec![4, 1, 5, 15, 5, 15, 5, 15, 5, 15, 5, 15]);
}

#[test]
fn bytes_that_are_no_text_are_replaced() {
    assert_eq!(nibbles_to_nickname(&[15, 15, 4, 1]), "\u{FFFD}A");
    assert_eq!(nibbles_to_nickname(&[4, 1, 4]), "A@");
    assert_eq!(without_padding("AB_C__"), "AB_C");
}

#[test]
fn a_beacon_is_three_tones_and_twelve() {
    let tones = beacon_tones("A");
    assert_eq!(tones, vec![0, 0, 0, 5, 2, 6, 16, 6, 16, 6, 16, 6, 16, 6, 16]);
    assert_eq!(beacon_duration_ms(), 2025);
    let g = BeaconGeometry::new(48_000);
    assert_eq!((g.slot, g.guard, g.period), (5280, 1200, 6480));
    assert_eq!((g.trim, g.analyze, g.hop, g.beacon), (660, 3960, 480, 97_200));
    assert_eq!(g.window_start(100, 14), 100 + 14 * 6480 + 660);
    assert_eq!(loudest_nibble(&[0, 0, 7, 7, 1, 0, 0, 0, 0, 0, 0, 0, 0, 0, 0, 0]), 2);
}

#[test]
fn beacons_found_do_not_overlap() {
    let mut scan = BeaconScan::new(100, 5, 20);
    assert_eq!(scan.positions(), 17);
    let mut scores = vec![0u32; 17];
    scores[6] = DOMINANCE_KEY + 9;
    scores[7] = DOMINANCE_KEY + 9;
    scores[9] = DOMINANCE_KEY + 8;
    scores[11] = DOMINANCE_KEY;
    scores[2] = DOMINANCE_KEY - 1;
    assert_eq!(scan.next(&scores), Some(30));
    assert!(!scan.free(45));
    assert!(!scan.free(10));
    assert!(scan.free(9));
    assert!(scan.free(50));
    assert_eq!(scan.next(&scores), Some(55));
    assert_eq!(scan.next(&scores), None);
    assert_eq!(BeaconScan::new(10, 5, 20).positions(), 0);
}

#[test]
fn a_beacon_has_its_time_in_the_round() {
    assert_eq!(hash_str(""), 0xcbf2_9ce4_8422_2325);
    assert_eq!(hash_str("a"), 0xaf63_dc4c_8601_ec8c);
    for round in [0u32, 1, 4, 12] {
        let key = format!("alex-{round}");
        assert_eq!(beacon_offset_ms("alex", round), hash_str(&key) % 1675);
    }
    assert_eq!(round_samples(1000, 48_000), (48_000, 192_000));
}

#[test]
fn a_beacon_lies_in_silence() {
    assert_eq!(place_beacon(&[7, 8, 9], 2, 6, 0), vec![0, 0, 7, 8, 9, 0]);
    assert_eq!(place_beacon(&[7, 8, 9], 4, 6, 0), vec![0, 0, 0, 0, 7, 8]);
    assert_eq!(place_beacon(&[7, 8, 9], 9, 6, 0), vec![0; 6]);
}

#[test]
fn the_own_beacon_is_left_out() {
    let read = vec!["ALEX".to_string(), "BOB".to_string(), "ALEX".to_string(), "EVE".to_string()];
    assert_eq!(others(&read, "alex!!"), vec![1, 3]);
    assert_eq!(entered_nickname("  alex\t\u{3000}"), Ok("alex".to_string()));
    assert_eq!(entered_nickname(" \n"), Err("Введите никнейм устройства".to_string()));
}

#[test]
fn blanks_are_those_of_unicode() {
    for n in 0..0x11_0000u32 {
        if let Some(c) = char::from_u32(n) {
            assert_eq!(is_blank(&c.to_string()), c.is_whitespace(), "{n:x}");
        }
    }
    assert_eq!(trimmed("\u{2003}a b\u{85}"), "a b");
    assert_eq!(trim_end("abba", 'a'), "abb");
}

#[test]
fn a_blank_name_is_no_choice() {
    let chosen = AudioSelection { input: Some("USB mic".to_string()), output: Some(" \t".to_string()) };
    assert_eq!(chosen.input_name(), Some("USB mic"));
    assert_eq!(chosen.output_name(), None);
    assert_eq!(AudioSelection::default().input_name(), None);
}

#[test]
fn modes_are_recommended_by_the_ratio() {
    let names: Vec<(&str, u32)> = [-50, 3, 4, 8, 9, 14, 15, 24, 25]
        .iter()
        .map(|&s| {
            let r = select_mode(s);
            (r.mode, r.bitrate_bps)
        })
        .collect();
    assert_eq!(
        names,
        vec![
            ("CSS", 187),
            ("CSS", 187),
            ("MFSK", 214),
            ("MFSK", 214),
            ("OFDM_QPSK", 10_000),
            ("OFDM_QPSK", 10_000),
            ("OFDM_16QAM", 20_000),
            ("OFDM_16QAM", 20_000),
            ("OFDM_64QAM", 30_000),
        ]
    );
    assert_eq!(select_mode(9).label, "OFDM + QPSK — сбалансированный режим");
    let words: Vec<&str> = [-1, 0, 7, 8, 15, 25].iter().map(|&s| clarity_label(s)).collect();
    assert_eq!(words, vec!["Очень шумная", "Шумная", "Шумная", "Средняя", "Хорошая", "Отличная"]);
}

#[test]
fn the_steady_part_is_analysed() {
    let w = analysis_windows(33_600, 86_400, 48_000);
    assert_eq!((w.start, w.end, w.noise_end), (14_400, 57_600, 33_600));
    let short = analysis_windows(100_000, 20_000, 48_000);
    assert_eq!((short.start, short.end, short.noise_end), (14_400, 20_000, 43_200));
    assert_eq!(sample_count(44_100, 50), 2205);
    assert!(is_enough(2205, 44_100));
    assert!(!is_enough(2204, 44_100));
    assert!(!is_enough(0, 0));
}

#[test]
fn names_are_read_in_either_case() {
    assert_eq!(parse_profile("Audible"), Ok(Profile::Audible));
    assert_eq!(parse_profile("ULTRASONIC"), Ok(Profile::Ultrasonic));
    assert_eq!(parse_profile("Loud"), Err("Неизвестный профиль: loud".to_string()));
    assert_eq!(parse_role("A"), Ok(Role::Initiator));
    assert_eq!(parse_role("responder"), Ok(Role::Responder));
    assert_eq!(parse_role("C"), Err("Неизвестная роль: c".to_string()));
    assert_eq!(parse_mode("AUTO"), Ok(ModePolicy::Auto));
    assert_eq!(parse_mode("css"), Ok(ModePolicy::Force(PhyMode::Css)));
    assert_eq!(parse_mode("Mfsk"), Ok(ModePolicy::Force(PhyMode::Mfsk)));
    for name in ["ofdm", "OFDM-qpsk", "qpsk"] {
        assert_eq!(parse_mode(name), Ok(ModePolicy::Force(PhyMode::OfdmQpsk)));
    }
    for name in ["ofdm-qam", "ofdm-16QAM", "16qam", "qam"] {
        assert_eq!(parse_test_mode(name), Ok(PhyMode::Ofdm16Qam));
    }
    assert_eq!(parse_mode("Ж"), Err("Неизвестный режим: Ж".to_string()));
    assert_eq!(parse_test_mode("auto"), Err("Неизвестный режим: auto".to_string()));
}

#[test]
fn one_session_at_a_time() {
    assert_eq!(may_start(false), Ok(()));
    assert_eq!(may_start(true), Err("Сессия уже запущена".to_string()));
    assert_eq!(must_run(true), Ok(()));
    assert_eq!(must_run(false), Err("Сессия не запущена".to_string()));
}

#[test]
fn a_self_test_has_a_diagnosis() {
    let sent = test_frame(PhyMode::Mfsk);
    let frame = Frame::parse(&sent).unwrap();
    assert_eq!(frame.payload, b"SONIC self-test");
    assert_eq!(frame.header.mode, PhyMode::Mfsk);
    assert_eq!(compare_frames(&Some(sent.clone()), &sent), (true, true));
    assert_eq!(compare_frames(&Some(vec![1]), &sent), (true, false));
    assert_eq!(compare_frames(&None, &sent), (false, false));
    assert_eq!(verdict(true, true, true), Diagnosis::Works);
    assert_eq!(verdict(true, false, true), Diagnosis::Deaf);
    assert_eq!(verdict(true, false, false), Diagnosis::Damaged);
    assert_eq!(verdict(false, false, false), Diagnosis::NoSync);
    assert_eq!(play_ms(48_000, 44_100), 1088);
}

#[test]
fn hashes_of_known_texts() {
    assert_eq!(hash_bytes(&[]), 0xcbf2_9ce4_8422_2325);
    assert_eq!(hash_bytes(b"a"), 0xaf63_dc4c_8601_ec8c);
    assert_eq!(hash_str("foobar"), 0x8594_4171_f739_67e8);
}

#[test]
fn a_blank_name_chooses_nothing() {
    assert_eq!(chosen_name(&Some(" \t".to_string())), None);
    assert_eq!(chosen_name(&Some(" mic ".to_string())), Some(" mic "));
    assert_eq!(chosen_name(&None), None);
}

#[test]
fn capitals_become_small_letters() {
    assert_eq!(lowercase("AZaz09-_ Ж"), "azaz09-_ Ж");
    assert_eq!(lowercase("THE QUICK BROWN FOX JUMPS OVER A LAZY DOG"),
        "the quick brown fox jumps over a lazy dog");
    assert_eq!(lowercase("@[`{"), "@[`{");
    assert_eq!(lowercase(""), "");
}
