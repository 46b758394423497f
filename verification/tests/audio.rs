use sonic_protocol::audio::device::{
    best_config, format_rank, pick_at_rate, resolve_device, ConfigChoice, ConfigRange,
    DeviceChoice, DeviceList, SampleFormat,
};
use sonic_protocol::audio::duplex::{Capture, TxGate, TX_TAIL_NS};
use sonic_protocol::audio::pipeline::{
    first_frame, frame_samples, longest_frame, mode_of_modem, LastEvent, RxDemodulator, Step,
    NOISE_FLOOR_CAP_KEY,
};
use sonic_protocol::audio_watch::{AudioDevices, Watch};
use sonic_protocol::bandplan::Profile;
use sonic_protocol::framing::{Frame, FrameHeader, FrameType, PhyMode};
use sonic_protocol::modem::css::CssLayout;
use sonic_protocol::modem::ofdm::OfdmLayout;
use sonic_protocol::modem::qam::Modulation;
use sonic_protocol::order::{first_largest, median, sorted};
use sonic_protocol::sim::Rng;

#[test]
fn f32_is_preferred_over_u8() {
    assert!(format_rank(SampleFormat::F32) < format_rank(SampleFormat::U8));
    assert!(format_rank(SampleFormat::I16) < format_rank(SampleFormat::U8));
    assert!(format_rank(SampleFormat::F32) < format_rank(SampleFormat::I16));
}

fn range(min_rate: u32, max_rate: u32, format: SampleFormat) -> ConfigRange {
    ConfigRange { min_rate, max_rate, format }
}

#[test]
fn the_best_format_at_the_rate_is_taken() {
    let ranges = vec![
        range(8_000, 48_000, SampleFormat::U8),
        range(44_100, 44_100, SampleFormat::F32),
        range(8_000, 96_000, SampleFormat::I16),
        range(48_000, 48_000, SampleFormat::I16),
    ];
    assert_eq!(pick_at_rate(&ranges, 48_000), Some(2));
    assert_eq!(pick_at_rate(&ranges, 44_100), Some(1));
    assert_eq!(pick_at_rate(&ranges, 192_000), None);
    assert_eq!(best_config(&ranges, 48_000, false), Some(ConfigChoice::Range(2)));
    assert_eq!(best_config(&ranges, 192_000, true), Some(ConfigChoice::Default));
    assert_eq!(best_config(&ranges, 192_000, false), None);
    assert_eq!(format_rank(SampleFormat::Other), 10);
}

#[test]
fn a_missing_device_falls_back() {
    let listed = vec![None, Some("mic".to_string()), Some("mic".to_string())];
    let mic = Some("mic".to_string());
    assert_eq!(resolve_device(&listed, true, &mic), Some(DeviceChoice::Listed(1)));
    let gone = Some("headset".to_string());
    assert_eq!(resolve_device(&listed, true, &gone), Some(DeviceChoice::Fallback));
    assert_eq!(resolve_device(&listed, true, &None), Some(DeviceChoice::Fallback));
    assert_eq!(resolve_device(&listed, true, &Some(String::new())), Some(DeviceChoice::Fallback));
    assert_eq!(resolve_device(&listed, false, &gone), None);
}

#[test]
fn devices_are_announced_when_they_change() {
    let list = |names: &[&str]| DeviceList {
        inputs: names.iter().map(|n| n.to_string()).collect(),
        ..DeviceList::default()
    };
    let mut watch = Watch::new();
    assert!(watch.last().is_none());
    assert!(watch.on_snapshot(AudioDevices::from_list(list(&["mic"]))));
    assert!(!watch.on_snapshot(AudioDevices::from_list(list(&["mic"]))));
    assert!(watch.on_snapshot(AudioDevices::from_list(list(&["mic", "headset"]))));
    assert_eq!(watch.last().unwrap().inputs.len(), 2);
    let mut other = list(&["mic", "headset"]);
    other.default_output = Some("speaker".to_string());
    assert!(watch.on_snapshot(AudioDevices::from_list(other)));
}

#[test]
fn a_device_does_not_hear_itself() {
    let mut gate = TxGate::new(0);
    assert_eq!(gate.on_captured(TX_TAIL_NS), Capture::Take);
    gate.queue(1_000_000_000, 48_000, 48_000);
    assert!(gate.active(1_000_000_000));
    assert_eq!(gate.on_captured(2_100_000_000), Capture::Drop);
    assert_eq!(gate.on_captured(2_219_999_999), Capture::Drop);
    assert_eq!(gate.on_captured(2_220_000_000), Capture::ClearAndTake);
    assert_eq!(gate.on_captured(2_220_000_001), Capture::Take);
}

#[test]
fn queued_frames_play_one_after_the_other() {
    let mut gate = TxGate::new(0);
    gate.queue(0, 24_000, 48_000);
    gate.queue(0, 24_000, 48_000);
    assert!(gate.active(1_000_000_000 + TX_TAIL_NS - 1));
    assert!(!gate.active(1_000_000_000 + TX_TAIL_NS));
    gate.queue(5_000_000_000, 10, 0);
    assert!(gate.active(15_000_000_000));
}

fn data_frame() -> Vec<u8> {
    Frame::new(FrameHeader::new(PhyMode::Css, FrameType::Data, 0), b"hello".to_vec()).serialize()
}

#[test]
fn a_burst_is_decoded_at_the_pause() {
    let mut rx = RxDemodulator::new(10_000, 48_000, 0i32);
    rx.push_captured(&vec![5; 3000]);
    assert_eq!(rx.samples().len(), 3000);
    assert_eq!(rx.decide(true, true), Step::Wait);
    assert_eq!(rx.decide(false, true), Step::DecodeFinal);
    let found = vec![None, Some(vec![1, 2, 3]), Some(data_frame())];
    assert_eq!(rx.finish_decode(&found, false), Some(2));
    assert_eq!(rx.samples().len(), 0);
    assert_eq!((rx.frames_ok(), rx.frames_bad()), (1, 0));
    assert_eq!(rx.last_event(), LastEvent::Received);
    assert_eq!(mode_of_modem(2), PhyMode::OfdmQpsk);
}

#[test]
fn a_burst_that_is_no_frame_is_dropped_too() {
    let mut rx = RxDemodulator::new(10_000, 48_000, 0i32);
    rx.push_captured(&vec![5; 3000]);
    assert_eq!(rx.finish_decode(&[None, Some(vec![0; 40])], false), None);
    assert_eq!(rx.samples().len(), 0);
    assert_eq!((rx.frames_ok(), rx.frames_bad()), (0, 1));
    assert_eq!(rx.last_event().text(), "синхронизация есть, CRC битый");
    rx.push_captured(&vec![5; 3000]);
    assert_eq!(rx.finish_decode(&[None, None], false), None);
    assert_eq!((rx.frames_ok(), rx.frames_bad()), (0, 1));
    assert_eq!(rx.last_event().text(), "преамбула не найдена");
}

#[test]
fn an_endless_burst_is_decoded_by_force() {
    let mut rx = RxDemodulator::new(10_000, 48_000, 0i32);
    rx.push_captured(&(0..34_000).collect::<Vec<i32>>());
    assert_eq!(rx.decide(true, true), Step::Wait);
    rx.push_captured(&[34_000]);
    assert_eq!(rx.decide(true, true), Step::DecodeForced);
    assert_eq!(rx.finish_decode(&vec![None; 4], true), None);
    assert_eq!(rx.samples().len(), 10_000);
    assert_eq!(rx.samples()[0], 24_001);
    rx.push_captured(&vec![1; 40_000]);
    assert_eq!(rx.decide(true, true), Step::DecodeForced);
    assert_eq!(rx.finish_decode(&[Some(data_frame())], true), Some(0));
    assert_eq!(rx.samples().len(), 0);
}

#[test]
fn silence_is_trimmed() {
    let mut rx = RxDemodulator::new(10_000, 48_000, 0i32);
    rx.push_captured(&(0..96_000).collect::<Vec<i32>>());
    assert_eq!(rx.tail_len(), 6_000);
    assert_eq!(rx.burst_windows(), (2_400, 40));
    assert!(rx.log_due());
    assert!(!rx.log_due());
    assert_eq!(rx.decide(false, false), Step::Trimmed);
    assert_eq!(rx.samples().len(), 16_000);
    assert_eq!(rx.samples()[0], 80_000);
    rx.clear();
    assert!(rx.samples().is_empty());
    assert_eq!(rx.tail_len(), 0);
}

#[test]
fn the_noise_is_the_level_of_the_pauses() {
    let mut rx = RxDemodulator::new(10_000, 48_000, 0i32);
    assert_eq!(rx.note_level(7), None);
    let mut floor = None;
    for i in 0..300u32 {
        rx.push_captured(&vec![0; 4_800]);
        // Nine of ten moments are loud.
        let level = if i % 9 == 0 { 3 } else { 1_000_000 };
        floor = rx.note_level(level);
        assert!(floor.is_some());
        assert_eq!(rx.note_level(9), None);
        rx.decide(false, false);
    }
    assert_eq!(floor, Some(3));
}

#[test]
fn reference_samples_are_kept_for_two_frames() {
    let mut rx = RxDemodulator::new(10, 48_000, 0i32);
    rx.push_reference(&[1; 25]);
    rx.push_captured(&[9; 30]);
    assert_eq!(rx.samples(), &vec![9; 30]);
}

#[test]
fn the_first_frame_among_results_counts() {
    assert_eq!(first_frame(&[None, Some(data_frame()), Some(data_frame())]), Some(1));
    assert_eq!(first_frame(&[]), None);
}

#[test]
fn chirps_take_longest() {
    let plan = Profile::Audible.band_plan();
    let css = CssLayout::with_defaults(plan.data, plan.sample_rate);
    let qpsk = OfdmLayout::new(plan.data, plan.sample_rate, Modulation::Qpsk);
    let qam = OfdmLayout::new(plan.data, plan.sample_rate, Modulation::Qam16);
    assert_eq!(longest_frame(&css, &qpsk, &qam), css.frame_samples(64));
    assert_eq!(frame_samples(PhyMode::Mfsk, &css, &qpsk, &qam, 64), (21 + 160) * 896);
    assert_eq!(frame_samples(PhyMode::Css, &css, &qpsk, &qam, 64), css.frame_samples(64));
    assert!(
        frame_samples(PhyMode::Ofdm16Qam, &css, &qpsk, &qam, 64)
            < frame_samples(PhyMode::OfdmQpsk, &css, &qpsk, &qam, 64)
    );
}

#[test]
fn values_are_found_by_rank() {
    assert_eq!(sorted(&vec![5, 1, 4, 1]), vec![1, 1, 4, 5]);
    assert_eq!(median(&vec![8, 3, 5, 1]), 5);
    assert_eq!(first_largest(&[2, 9, 9, 1]), 1);
}

#[test]
fn random_numbers_repeat_with_the_seed() {
    let mut a = Rng::new(42);
    let mut b = Rng::new(42);
    for _ in 0..100 {
        assert_eq!(a.next_u64(), b.next_u64());
    }
    assert!(a.next_u24() < 1 << 24);
    let mut zero = Rng::new(0);
    let mut one = Rng::new(1);
    assert_eq!(zero.next_u64(), one.next_u64());
    assert_eq!(Rng::new(1).next_u64(), 0x47E4_CE4B_896C_DD1D);
}

#[test]
fn device_lists_are_compared_by_their_names() {
    let one = |name: &str| AudioDevices {
        inputs: vec![name.to_string()],
        outputs: Vec::new(),
        default_input: Some(name.to_string()),
        default_output: None,
    };
    assert!(one("mic").same(&one("mic")));
    assert!(!one("mic").same(&one("line")));
    let mut bare = one("mic");
    bare.default_input = None;
    assert!(!one("mic").same(&bare));
}

#[test]
fn playing_times_are_rounded_to_the_nearest() {
    // One sample at 44100 Hz plays for 22675.7 ns, and at 1024 Hz for 976562.5 ns.
    let mut gate = TxGate::new(0);
    gate.queue(0, 1, 44_100);
    assert!(gate.active(22_676 + TX_TAIL_NS - 1));
    assert!(!gate.active(22_676 + TX_TAIL_NS));
    let mut gate = TxGate::new(0);
    gate.queue(0, 1, 1_024);
    assert!(gate.active(976_562 + TX_TAIL_NS - 1));
    assert!(!gate.active(976_562 + TX_TAIL_NS));
    let mut gate = TxGate::new(0);
    gate.queue(0, 3, 1_024);
    assert!(gate.active(2_929_688 + TX_TAIL_NS - 1));
    assert!(!gate.active(2_929_688 + TX_TAIL_NS));
}

#[test]
fn the_noise_is_never_taken_to_be_too_loud() {
    let mut rx = RxDemodulator::new(10_000, 48_000, 0i32);
    let mut floor = None;
    for _ in 0..250u32 {
        rx.push_captured(&vec![0; 4_800]);
        floor = rx.note_level(0.9f32.to_bits());
        rx.decide(false, false);
    }
    assert_eq!(floor, Some(NOISE_FLOOR_CAP_KEY));
    assert_eq!(f32::from_bits(NOISE_FLOOR_CAP_KEY), 0.03);
}
