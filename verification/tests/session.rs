use sonic_protocol::bandplan::Role;
use sonic_protocol::fec::FecCodec;
use sonic_protocol::framing::{Frame, FrameHeader, FrameType, PhyMode};
use sonic_protocol::session::message::{cut_fill, fits, split_message, Assembler, MAX_MESSAGE_LEN};
use sonic_protocol::session::{
    session_source, CommandDone, Incoming, MessageStatus, ModePolicy, Outgoing, Pacer, Session, SessionCommand,
};

/// Hands frames to a session and returns what it says.
fn hear(session: &mut Session, frames: &[Outgoing], now_ms: u64) -> Vec<Incoming> {
    frames.iter().map(|f| session.on_frame(&f.bytes, now_ms)).collect()
}

fn texts(heard: &[Incoming]) -> Vec<String> {
    let mut out = Vec::new();
    for h in heard {
        if let Incoming::Data { messages, .. } = h {
            for m in messages {
                out.push(m.clone());
            }
        }
    }
    out
}

#[test]
fn a_message_is_cut_into_pieces() {
    let pieces = split_message(&[7u8; 60], 0x0102);
    assert_eq!(pieces.len(), 3);
    assert_eq!(&pieces[0][..4], &[1, 2, 3, 0]);
    assert_eq!(&pieces[2][..4], &[1, 2, 3, 2]);
    assert_eq!(pieces[2].len(), 4 + 4);
    assert_eq!(split_message(&[], 1), vec![vec![0, 1, 1, 0]]);
}

#[test]
fn pieces_come_together_in_any_order() {
    let bytes: Vec<u8> = (0..60).collect();
    let pieces = split_message(&bytes, 9);
    let mut assembler = Assembler::new();
    assert_eq!(assembler.accept(&pieces[2]), None);
    assert_eq!(assembler.accept(&pieces[0]), None);
    assert_eq!(assembler.accept(&pieces[0]), None);
    assert_eq!(assembler.accept(&pieces[1]), Some(bytes));
    assert_eq!(assembler.accept(&[0, 1]), None);
}

#[test]
fn a_message_crosses_the_air() {
    let mut a = Session::new(0, 1500);
    let mut b = Session::new(1, 1500);
    let text = "Съешь же ещё этих мягких французских булок, да выпей чаю".to_string();
    assert_eq!(a.enqueue_message(&text), 1);
    let frames = a.pump(0);
    assert_eq!(frames.len(), (text.len() + 27) / 28);
    assert!(frames.iter().all(|f| f.mode == PhyMode::OfdmQpsk));
    assert_eq!(a.in_flight(), frames.len());

    let heard = hear(&mut b, &frames, 10);
    assert_eq!(texts(&heard), vec![text.clone()]);

    let mut delivered = Vec::new();
    for h in heard {
        if let Incoming::Data { reply, .. } = h {
            match a.on_frame(&reply.bytes, 20) {
                Incoming::Ack { acked, rtt_ms } => {
                    assert_eq!(acked, 1);
                    assert_eq!(rtt_ms, Some(20));
                    delivered.extend(a.finish_ack(acked, 1500));
                }
                other => panic!("expected an acknowledgement, got {other:?}"),
            }
        }
    }
    assert_eq!(a.in_flight(), 0);
    assert_eq!(delivered.len(), frames.len());
    assert!(delivered.iter().all(|d| d.msg_id == 1 && d.text == text));
    assert_eq!(a.frames_ok(), frames.len() as u32);
    assert_eq!(b.frames_bad(), 0);
}

#[test]
fn a_text_comes_out_without_the_fill_of_its_last_piece() {
    let mut b = Session::new(1, 1500);
    let mut header = FrameHeader::new(PhyMode::OfdmQpsk, FrameType::Data, 0);
    header.seq = 0;
    let payload = FecCodec::new(32, 16).encode(&[0, 1, 1, 0, b'h', b'i']);
    match b.on_frame(&Frame::new(header, payload).serialize(), 0) {
        Incoming::Data { messages, reply } => {
            assert_eq!(messages, vec!["hi".to_string()]);
            let ack = Frame::parse(&reply.bytes).unwrap();
            assert_eq!(ack.header.frame_type, FrameType::Ack);
            assert_eq!((ack.header.ack, ack.header.sack), (0, 0));
            assert!(ack.payload.is_empty());
        }
        other => panic!("expected data, got {other:?}"),
    }
}

#[test]
fn texts_of_every_length_arrive_as_they_are() {
    let mut a = Session::new(0, 1500);
    let mut b = Session::new(1, 1500);
    for n in 0..90usize {
        let text: String = "жabc".chars().cycle().take(n).collect();
        a.enqueue_message(&text);
        let frames = a.pump(0);
        let heard = hear(&mut b, &frames, 0);
        assert_eq!(texts(&heard), vec![text]);
        for h in heard {
            if let Incoming::Data { reply, .. } = h {
                if let Incoming::Ack { acked, .. } = a.on_frame(&reply.bytes, 0) {
                    a.finish_ack(acked, 1500);
                }
            }
        }
    }
    assert_eq!(cut_fill(vec![1, 0, 2, 0, 0]), vec![1, 0, 2]);
    assert_eq!(cut_fill(vec![0, 0]), Vec::<u8>::new());
}

#[test]
fn lost_frames_are_sent_again() {
    let mut a = Session::new(0, 1500);
    let mut b = Session::new(1, 1500);
    let text = "x".repeat(100);
    a.enqueue_message(&text);
    let frames = a.pump(0);
    assert_eq!(frames.len(), 4);
    // The second frame is lost.
    let first = hear(&mut b, &[Outgoing { mode: frames[0].mode, bytes: frames[0].bytes.clone() }], 0);
    assert!(texts(&first).is_empty());
    assert!(texts(&hear(&mut b, &frames[2..], 0)).is_empty());
    assert!(a.tick(1499, 1500).resend.is_empty());
    let again = a.tick(1500, 1500);
    assert_eq!(again.resend.len(), 4);
    assert!(!again.down);
    assert_eq!(texts(&hear(&mut b, &again.resend, 1600)), vec![text]);
    assert_eq!(a.retransmits(), 4);
}

#[test]
fn the_own_echo_is_ignored() {
    let mut a = Session::new(0, 1500);
    a.enqueue_message(&"hello".to_string());
    let frames = a.pump(0);
    assert_eq!(a.on_frame(&frames[0].bytes, 1), Incoming::Echo);
    assert_eq!(a.frames_ok(), 0);
}

#[test]
fn damaged_frames_are_counted() {
    let mut a = Session::new(0, 1500);
    let mut b = Session::new(1, 1500);
    a.enqueue_message(&"hello".to_string());
    let mut bytes = a.pump(0).remove(0).bytes;
    bytes[20] ^= 1;
    assert_eq!(b.on_frame(&bytes, 0), Incoming::Bad);
    assert_eq!(b.frames_bad(), 1);
    let hello = Frame::new(FrameHeader::new(PhyMode::Css, FrameType::Hello, 0), Vec::new());
    assert_eq!(b.on_frame(&hello.serialize(), 0), Incoming::Other);
    assert_eq!(b.frames_ok(), 1);
}

#[test]
fn damaged_payloads_are_repaired_up_to_eight_bytes() {
    let mut a = Session::new(0, 1500);
    let mut b = Session::new(1, 1500);
    a.enqueue_message(&"repair me, please".to_string());
    let sent = Frame::parse(&a.pump(0)[0].bytes).unwrap();
    let mut payload = sent.payload.clone();
    for i in 0..8 {
        payload[i * 6] ^= 0x5A;
    }
    let damaged = Frame::new(sent.header, payload).serialize();
    let heard = vec![b.on_frame(&damaged, 0)];
    assert_eq!(texts(&heard), vec!["repair me, please".to_string()]);
}

#[test]
fn the_window_holds_back_pieces() {
    let mut a = Session::new(0, 1500);
    a.set_mode(ModePolicy::Force(PhyMode::Css), 1500);
    assert_eq!(a.current_mode(), PhyMode::Css);
    a.enqueue_message(&"y".repeat(28 * 6));
    let frames = a.pump(0);
    assert_eq!(frames.len(), 4);
    assert!(frames.iter().all(|f| f.mode == PhyMode::Css));
    assert!(a.pump(1).is_empty());
    let seqs: Vec<u16> = frames.iter().map(|f| Frame::parse(&f.bytes).unwrap().header.seq).collect();
    assert_eq!(seqs, vec![0, 1, 2, 3]);
}

#[test]
fn the_ladder_follows_the_link() {
    let mut a = Session::new(0, 1500);
    assert_eq!(a.current_mode(), PhyMode::OfdmQpsk);
    a.enqueue_message(&"z".to_string());
    a.pump(0);
    let mut now = 0;
    for _ in 0..3 {
        now += 200_000;
        assert_eq!(a.tick(now, 1500).resend.len(), 1);
    }
    assert_eq!(a.current_mode(), PhyMode::Css);
    a.finish_ack(5, 1500);
    assert_eq!(a.current_mode(), PhyMode::OfdmQpsk);
}

#[test]
fn a_link_without_answers_goes_down() {
    let mut a = Session::new(0, 1500);
    a.set_mode(ModePolicy::Force(PhyMode::Mfsk), 300);
    a.enqueue_message(&"anyone?".to_string());
    a.pump(0);
    let mut now = 0;
    let mut down = false;
    for _ in 0..20 {
        now += 1_000_000;
        down = a.tick(now, 300).down;
    }
    assert!(down);
    assert_eq!(a.retransmits(), 8);
    assert_eq!(a.current_mode(), PhyMode::Mfsk);
}

#[test]
fn message_numbers_skip_zero() {
    let mut a = Session::new(0, 1500);
    for n in 1..=65_535u32 {
        assert_eq!(a.enqueue_message(&String::new()), n as u16);
    }
    assert_eq!(a.enqueue_message(&String::new()), 1);
}

#[test]
fn commands_are_carried_out() {
    let mut a = Session::new(0, 1500);
    assert_eq!(
        a.on_command(SessionCommand::Send("hi".to_string()), 1500),
        CommandDone::Sent(MessageStatus { msg_id: 1, text: "hi".to_string() })
    );
    let mode = ModePolicy::Force(PhyMode::Ofdm16Qam);
    assert_eq!(a.on_command(SessionCommand::SetMode(mode), 1500), CommandDone::ModeSet);
    assert_eq!(a.current_mode(), PhyMode::Ofdm16Qam);
    assert_eq!(a.on_command(SessionCommand::SetMode(ModePolicy::Auto), 1500), CommandDone::ModeSet);
    assert_eq!(a.current_mode(), PhyMode::Ofdm16Qam);
    assert_eq!(a.pump(0).len(), 1);
    assert_eq!(a.on_command(SessionCommand::Stop, 1500), CommandDone::Stopped);
}

#[test]
fn periodic_work_has_its_pace() {
    let mut pacer = Pacer::new(1000);
    assert!(!pacer.tick_due(1199));
    assert!(pacer.tick_due(1200));
    assert!(!pacer.tick_due(1399));
    assert!(!pacer.report_due(1399));
    assert!(pacer.report_due(1400));
    assert!(!pacer.report_due(900));
}

#[test]
fn frames_may_arrive_in_any_order_and_more_than_once() {
    let mut a = Session::new(0, 1500);
    let mut b = Session::new(1, 1500);
    let text: String = ('a'..='z').cycle().take(120).collect();
    a.enqueue_message(&text);
    let frames = a.pump(0);
    assert_eq!(frames.len(), 5);
    let mut heard = Vec::new();
    for i in [4, 2, 2, 0, 3, 4, 1, 0] {
        heard.push(b.on_frame(&frames[i].bytes, 0));
    }
    assert_eq!(texts(&heard), vec![text]);
}

#[test]
fn a_second_acknowledgement_measures_nothing() {
    let mut a = Session::new(0, 1500);
    let mut b = Session::new(1, 1500);
    a.enqueue_message(&"hi".to_string());
    let frames = a.pump(0);
    let reply = match b.on_frame(&frames[0].bytes, 5) {
        Incoming::Data { reply, .. } => reply,
        other => panic!("expected data, got {other:?}"),
    };
    assert_eq!(a.on_frame(&reply.bytes, 7), Incoming::Ack { acked: 1, rtt_ms: Some(7) });
    assert_eq!(a.on_frame(&reply.bytes, 9), Incoming::Ack { acked: 0, rtt_ms: None });
    assert_eq!(a.retransmits(), 0);
}

#[test]
fn sources_are_told_apart_by_the_role() {
    assert_eq!(session_source(Role::Initiator, 0xFF), 0x7F);
    assert_eq!(session_source(Role::Responder, 0x05), 0x85);
    for a in 0..=255u8 {
        for b in 0..=255u8 {
            assert_ne!(session_source(Role::Initiator, a), session_source(Role::Responder, b));
        }
    }
}

#[test]
fn devices_in_one_role_hear_each_other() {
    let mut a = Session::new(session_source(Role::Initiator, 17), 1500);
    let mut b = Session::new(session_source(Role::Initiator, 18), 1500);
    a.enqueue_message(&"hi".to_string());
    let frames = a.pump(0);
    assert_eq!(texts(&hear(&mut b, &frames, 0)), vec!["hi".to_string()]);
    assert_eq!(a.on_frame(&frames[0].bytes, 0), Incoming::Echo);
}

#[test]
fn the_longest_message_has_255_pieces() {
    let text = "z".repeat(MAX_MESSAGE_LEN);
    assert!(fits(&text));
    assert!(fits(""));
    assert!(!fits(&"z".repeat(MAX_MESSAGE_LEN + 1)));
    let pieces = split_message(text.as_bytes(), 1);
    assert_eq!(pieces.len(), 255);
    assert_eq!(&pieces[254][..4], &[0, 1, 255, 254]);
    assert_eq!(pieces[254].len(), 32);
}

#[test]
fn zeros_at_the_end_are_sent_as_the_fill_is() {
    let mut a = Session::new(0, 1500);
    let mut b = Session::new(0, 1500);
    a.enqueue_message(&"hi".to_string());
    b.enqueue_message(&"hi\0".to_string());
    assert_eq!(a.pump(0), b.pump(0));
}
