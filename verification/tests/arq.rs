use sonic_protocol::arq::fallback::AutoFallback;
use sonic_protocol::arq::receiver::ArqReceiver;
use sonic_protocol::arq::sender::ArqSender;
use sonic_protocol::arq::ArqConfig;
use sonic_protocol::framing::PhyMode;

#[test]
fn window_limits_in_flight() {
    let mut tx = ArqSender::new(ArqConfig {
        window: 4,
        timeout_ms: 300,
        max_retries: 8,
    });
    for i in 0..4 {
        assert_eq!(tx.send(vec![i], 0), Some(i as u16));
    }
    assert!(!tx.can_send());
    assert_eq!(tx.send(vec![9], 0), None);
}

#[test]
fn ack_frees_window_and_measures_rtt() {
    let mut tx = ArqSender::new(ArqConfig {
        window: 4,
        timeout_ms: 300,
        max_retries: 8,
    });
    tx.send(vec![0], 100);
    tx.send(vec![1], 100);
    tx.on_ack(1, 0, 250);
    assert_eq!(tx.in_flight(), 0);
    assert_eq!(tx.take_rtt_sample(), Some(150));
}

#[test]
fn selective_ack_via_bitmap() {
    let mut tx = ArqSender::new(ArqConfig {
        window: 8,
        timeout_ms: 300,
        max_retries: 8,
    });
    for i in 0..4 {
        tx.send(vec![i], 0);
    }
    tx.on_ack(0, 0b110, 0);
    assert_eq!(tx.in_flight(), 1);
    assert!(tx.contains(1));
}

#[test]
fn timeout_triggers_retransmit_then_link_down() {
    let mut tx = ArqSender::new(ArqConfig {
        window: 4,
        timeout_ms: 100,
        max_retries: 2,
    });
    tx.send(vec![7], 0);
    assert!(tx.due_retransmissions(50).is_empty());
    let r = tx.due_retransmissions(200);
    assert_eq!(r, vec![(0u16, vec![7u8])]);
    let mut t = 200u64;
    for _ in 0..10 {
        t += 100_000;
        tx.due_retransmissions(t);
    }
    assert!(tx.link_down());
}

#[test]
fn receiver_reorders_and_dedups() {
    let mut rx: ArqReceiver<u8> = ArqReceiver::new();
    assert_eq!(rx.push(0, 10), vec![10]);
    assert_eq!(rx.push(2, 12), Vec::<u8>::new());
    assert!(rx.has_gap());
    assert_eq!(rx.push(2, 12), Vec::<u8>::new());
    assert_eq!(rx.push(1, 11), vec![11, 12]);
    assert!(!rx.has_gap());
    let (cum, sack) = rx.ack_info();
    assert_eq!(cum, 2);
    assert_eq!(sack, 0);
}

#[test]
fn receiver_sack_reports_out_of_order() {
    let mut rx: ArqReceiver<u8> = ArqReceiver::new();
    rx.push(0, 0);
    rx.push(2, 2);
    let (cum, sack) = rx.ack_info();
    assert_eq!(cum, 0);
    assert_eq!(sack, 0b10);
}

#[test]
fn auto_fallback_degrades_and_recovers() {
    let mut fb = AutoFallback::new();
    assert_eq!(fb.current(), PhyMode::Css);
    fb.force(PhyMode::Ofdm16Qam);
    assert_eq!(fb.current(), PhyMode::Ofdm16Qam);

    fb.on_failure();
    fb.on_failure();
    assert!(fb.on_failure());
    assert_eq!(fb.current(), PhyMode::OfdmQpsk);
    fb.on_failure();
    fb.on_failure();
    assert!(fb.on_failure());
    assert_eq!(fb.current(), PhyMode::Css);

    for _ in 0..4 {
        assert!(!fb.on_success());
    }
    assert!(fb.on_success());
    assert_eq!(fb.current(), PhyMode::OfdmQpsk);
}

#[test]
fn limits_follow_the_mode() {
    let fast = ArqConfig::for_mode(PhyMode::OfdmQpsk, 1500);
    assert_eq!((fast.window, fast.timeout_ms, fast.max_retries), (32, 1500, 8));
    let slow = ArqConfig::for_mode(PhyMode::Css, 10);
    assert_eq!((slow.window, slow.timeout_ms, slow.max_retries), (4, 300, 8));
    assert_eq!(ArqConfig::for_mode(PhyMode::Mfsk, 300).window, 4);
    assert_eq!(ArqConfig::for_mode(PhyMode::Ofdm16Qam, 301).timeout_ms, 301);
}

#[test]
fn timeout_doubles_with_each_retry() {
    let mut tx = ArqSender::new(ArqConfig {
        window: 4,
        timeout_ms: 100,
        max_retries: 8,
    });
    tx.send(vec![1], 0);
    assert_eq!(tx.due_retransmissions(100).len(), 1);
    assert_eq!(tx.due_retransmissions(299).len(), 0);
    assert_eq!(tx.due_retransmissions(300).len(), 1);
    assert_eq!(tx.due_retransmissions(699).len(), 0);
    assert_eq!(tx.due_retransmissions(700).len(), 1);
    assert_eq!(tx.retransmits(), 3);
    assert!(!tx.link_down());
}

#[test]
fn link_is_down_for_good() {
    let mut tx = ArqSender::new(ArqConfig {
        window: 4,
        timeout_ms: 100,
        max_retries: 0,
    });
    assert_eq!(tx.send(vec![1], 0), Some(0));
    assert!(tx.due_retransmissions(100).is_empty());
    assert!(tx.link_down());
    assert!(!tx.can_send());
    assert_eq!(tx.send(vec![2], 0), None);
}

#[test]
fn every_number_is_taken_once() {
    let mut rx: ArqReceiver<u32> = ArqReceiver::new();
    for n in 0..65_536u32 {
        assert_eq!(rx.push(n as u16, n), vec![n]);
    }
    assert_eq!(rx.ack_info(), (65_535, 0));
    assert_eq!(rx.push(0, 65_536), Vec::<u32>::new());
}

#[test]
fn stale_frames_are_dropped() {
    let mut rx: ArqReceiver<u8> = ArqReceiver::new();
    assert_eq!(rx.push(0, 1), vec![1]);
    assert_eq!(rx.push(0, 2), Vec::<u8>::new());
    assert_eq!(rx.push(65_535, 3), Vec::<u8>::new());
    assert_eq!(rx.push(1, 4), vec![4]);
}

#[test]
fn one_success_forgives_failures() {
    let mut fb = AutoFallback::new();
    fb.force(PhyMode::OfdmQpsk);
    fb.on_failure();
    fb.on_failure();
    fb.on_success();
    fb.on_failure();
    fb.on_failure();
    assert_eq!(fb.current(), PhyMode::OfdmQpsk);
    assert!(fb.on_failure());
    assert_eq!(fb.current(), PhyMode::Css);
    for _ in 0..10 {
        assert!(!fb.on_failure());
    }
    assert_eq!(fb.current(), PhyMode::Css);
}

#[test]
fn a_mode_without_a_rung_changes_no_rung() {
    let mut fb = AutoFallback::new();
    fb.force(PhyMode::OfdmQpsk);
    fb.force(PhyMode::Mfsk);
    assert_eq!(fb.current(), PhyMode::OfdmQpsk);
}

#[test]
fn new_limits_hold_at_once() {
    let mut tx = ArqSender::new(ArqConfig { window: 1, timeout_ms: 300, max_retries: 8 });
    assert_eq!(tx.send(vec![1], 0), Some(0));
    assert_eq!(tx.send(vec![2], 0), None);
    tx.set_config(ArqConfig { window: 2, timeout_ms: 100, max_retries: 8 });
    assert_eq!(tx.send(vec![2], 50), Some(1));
    assert_eq!(tx.due_retransmissions(100), vec![(0, vec![1])]);
}

#[test]
fn items_come_out_in_order_whatever_the_order_of_frames() {
    let mut rx: ArqReceiver<u8> = ArqReceiver::new();
    let mut out = Vec::new();
    for seq in [3u16, 1, 3, 0, 4, 4, 2, 0] {
        out.extend(rx.push(seq, 10 + seq as u8));
    }
    assert_eq!(out, vec![10, 11, 12, 13, 14]);
    assert_eq!(rx.ack_info(), (4, 0));
}
