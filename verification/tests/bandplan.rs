use sonic_protocol::bandplan::{DuplexScheme, EchoCanceller, Fdd, Profile, Role, SubBand, Tdd};
use sonic_protocol::modem::mfsk;

#[test]
fn fdd_bands_do_not_overlap_and_swap_by_role() {
    let a = Fdd::new(Role::Initiator, Profile::Ultrasonic);
    let b = Fdd::new(Role::Responder, Profile::Ultrasonic);
    assert_eq!(a.tx_band(), b.rx_band());
    assert_eq!(a.rx_band(), b.tx_band());
    assert!(a.tx_band().high_hz() < a.rx_band().low_hz());
}

#[test]
fn tdd_shares_one_band_both_directions_and_roles() {
    let a = Tdd::new(Role::Initiator, Profile::Audible);
    let b = Tdd::new(Role::Responder, Profile::Audible);
    assert_eq!(a.tx_band(), a.rx_band());
    assert_eq!(a.tx_band(), b.tx_band());
    assert_eq!(a.rx_band(), b.rx_band());
    assert_ne!(a.role().direction_bit(), b.role().direction_bit());
}

#[test]
fn audible_data_band_sits_in_hardware_sweet_spot() {
    let plan = Profile::Audible.band_plan();
    assert!(plan.data.low_hz() as f32 >= 400.0, "{} is too low", plan.data.low_hz());
    assert!(plan.data.high_hz() as f32 <= 3800.0, "{} is too high", plan.data.high_hz());
    assert_eq!(plan.sample_rate, 48_000);
}

#[test]
fn ultrasonic_stays_below_nyquist() {
    let plan = Profile::Ultrasonic.band_plan();
    assert!(plan.upper.high_hz() <= plan.sample_rate / 2);
}

#[test]
fn tone_span_fits_subband() {
    let fdd = Fdd::new(Role::Initiator, Profile::Audible);
    assert!(mfsk::fits_band(fdd.tx_band(), fdd.sample_rate()));
    assert!(!mfsk::fits_band(SubBand::from_edges(21_000, 22_400), 48_000));
}

#[test]
fn a_band_has_a_width_and_a_middle() {
    let band = SubBand::from_edges(504, 3696);
    assert_eq!(band.bandwidth_hz(), 3192);
    assert_eq!(band.double_center_hz(), 4200);
}

#[test]
fn no_canceller_changes_anything() {
    let mut canceller = Tdd::new(Role::Initiator, Profile::Audible).echo_canceller();
    let mut block = vec![1i32, -2, 3];
    canceller.process(&mut block, &[7, 7, 7]);
    assert_eq!(block, vec![1, -2, 3]);
    assert_eq!(Role::Initiator.direction_bit(), 0);
    assert_eq!(Role::Responder.direction_bit(), 1);
}
