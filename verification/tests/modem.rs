use sonic_protocol::bandplan::Profile;
use sonic_protocol::framing::PhyMode;
use sonic_protocol::modem::bits;
use sonic_protocol::modem::css::{CssLayout, CssParams, MAGIC_SYNC};
use sonic_protocol::modem::css_reader::{CssAsk, CssReader};
use sonic_protocol::modem::edge::{first_loud, EdgeGrid};
use sonic_protocol::modem::mfsk;
use sonic_protocol::modem::mfsk::{MfskAsk, MfskReader};
use sonic_protocol::modem::ofdm;
use sonic_protocol::modem::ofdm::{OfdmAsk, OfdmLayout, OfdmReader};
use sonic_protocol::modem::qam::{
    bits_to_bytes, bytes_to_bits, demap, gray2_level, level_to_gray2, Modulation, Point,
};
use sonic_protocol::modem::reader;
use sonic_protocol::modem::reader::{FrameReader, Reading};
use sonic_protocol::modem::{bytes_to_symbols, symbols_to_bytes};

#[test]
fn qpsk_roundtrip_clean() {
    let bits: Vec<u8> = (0..64).map(|i| (i % 2) as u8).collect();
    let syms = sonic_protocol::modem::qam::map(&bits, Modulation::Qpsk);
    assert_eq!(demap(&syms, Modulation::Qpsk), bits);
}

#[test]
fn qam16_roundtrip_clean() {
    let bytes = b"16-QAM constellation test payload";
    let bits = bytes_to_bits(bytes);
    let syms = sonic_protocol::modem::qam::map(&bits, Modulation::Qam16);
    let back = bits_to_bytes(&demap(&syms, Modulation::Qam16));
    assert_eq!(&back[..bytes.len()], bytes);
}

#[test]
fn qam16_is_gray_coded() {
    let levels: Vec<(i32, (u8, u8))> = [(0u8, 0u8), (0, 1), (1, 0), (1, 1)]
        .iter()
        .map(|&(b1, b0)| {
            let v = gray2_level(b1, b0);
            (v, level_to_gray2(v))
        })
        .collect();
    let mut sorted = levels.clone();
    sorted.sort_by(|a, b| a.0.partial_cmp(&b.0).unwrap());
    for w in sorted.windows(2) {
        let (b1a, b0a) = w[0].1;
        let (b1b, b0b) = w[1].1;
        let diff = (b1a ^ b1b) + (b0a ^ b0b);
        assert_eq!(diff, 1, "adjacent levels differ by !=1 bit");
    }
}

#[test]
fn qam16_average_power_normalized() {
    let mut all_bits = Vec::new();
    for v in 0..16u8 {
        for i in (0..4).rev() {
            all_bits.push((v >> i) & 1);
        }
    }
    let syms = sonic_protocol::modem::qam::map(&all_bits, Modulation::Qam16);
    let unit = 10.0f32.sqrt();
    let avg_power: f32 = syms
        .iter()
        .map(|c| {
            let (re, im) = (c.re as f32 / unit, c.im as f32 / unit);
            re * re + im * im
        })
        .sum::<f32>()
        / syms.len() as f32;
    assert!((avg_power - 1.0).abs() < 0.05, "avg power {avg_power}");
}

#[test]
fn points_between_levels_go_to_the_nearer() {
    let up = demap(&[Point { re: 5, im: -6 }], Modulation::Qam16);
    let far = demap(&[Point { re: 3, im: -3 }], Modulation::Qam16);
    assert_eq!(up, far);
    assert_eq!(demap(&[Point { re: 0, im: -1 }], Modulation::Qpsk).len(), 2);
    assert_ne!(
        demap(&[Point { re: 0, im: 0 }], Modulation::Qpsk),
        demap(&[Point { re: -1, im: -1 }], Modulation::Qpsk)
    );
}

#[test]
fn bits_are_rolled_from_the_highest() {
    assert_eq!(bytes_to_bits(&[0xA5]), vec![1, 0, 1, 0, 0, 1, 0, 1]);
    assert_eq!(bits_to_bytes(&[1, 0, 1, 0, 0, 1, 0, 1]), vec![0xA5]);
    assert_eq!(bits_to_bytes(&[1, 1]), vec![0xC0]);
    assert_eq!(Modulation::Qpsk.bits_per_symbol(), 2);
    assert_eq!(Modulation::Qam16.bits_per_symbol(), 4);
}

#[test]
fn symbol_packing_roundtrip_sf8() {
    let bytes = b"acoustic";
    let syms = bytes_to_symbols(bytes, 8);
    assert_eq!(syms.len(), bytes.len());
    assert_eq!(symbols_to_bytes(&syms, 8, bytes.len()), bytes);
}

#[test]
fn symbol_packing_roundtrip_sf10() {
    let bytes = b"chirp spread spectrum";
    let syms = bytes_to_symbols(bytes, 10);
    assert!(syms.iter().all(|&s| s < 1024));
    assert_eq!(symbols_to_bytes(&syms, 10, bytes.len()), bytes);
}

#[test]
fn symbols_take_bits_from_the_highest() {
    assert_eq!(bytes_to_symbols(&[0x12, 0x34], 4), vec![1, 2, 3, 4]);
    assert_eq!(bytes_to_symbols(&[0xFF], 5), vec![0x1F, 0x1C]);
    assert_eq!(symbols_to_bytes(&[1, 2, 3, 4], 4, 2), vec![0x12, 0x34]);
}

#[test]
fn two_of_three_lengths_win() {
    assert_eq!(reader::majority(&[5, 9, 5]), 5);
    assert_eq!(reader::majority(&[9, 5, 5]), 5);
    assert_eq!(reader::majority(&[7, 7, 7]), 7);
}

#[test]
fn a_frame_is_read_symbol_by_symbol() {
    let frame: Vec<u8> = (0..40).collect();
    for sf in 1..=16u32 {
        let syms = reader::frame_symbols(&frame, sf, 0);
        let mut rd = FrameReader::new(sf);
        for (i, &s) in syms[1..].iter().enumerate() {
            let said = rd.push(s);
            if i + 2 == syms.len() {
                assert_eq!(said, Reading::Frame(frame.clone()));
            } else {
                assert_eq!(said, Reading::More);
            }
        }
    }
}

#[test]
fn one_spoilt_length_does_not_matter() {
    let frame: Vec<u8> = (0..40).collect();
    let mut syms = reader::frame_symbols(&frame, 8, 0);
    syms[1] = 77;
    syms[2] = 99;
    let mut rd = FrameReader::new(8);
    let mut last = Reading::More;
    for &s in &syms[1..] {
        last = rd.push(s);
    }
    assert_eq!(last, Reading::Frame(frame));
}

#[test]
fn impossible_lengths_are_refused() {
    for len in [0u16, 15, 8193, 65_535] {
        let mut rd = FrameReader::new(16);
        assert_eq!(rd.push(len), Reading::More);
        assert_eq!(rd.push(len), Reading::More);
        assert_eq!(rd.push(len), Reading::Rejected);
    }
}

#[test]
fn chirps_are_laid_out() {
    let plan = Profile::Audible.band_plan();
    let css = CssLayout::with_defaults(plan.data, plan.sample_rate);
    assert_eq!(css.spreading_factor(), 8);
    assert_eq!(css.symbol_count(), 256);
    // 48000 / (0.98 * 3192) = 15.34..., rounded up.
    assert_eq!(css.oversampling_factor(), 16);
    assert_eq!(css.samples_per_symbol(), 4096);
    assert_eq!(css.header_slots(), 17);
    assert_eq!(css.frame_samples(64), (17 + 80) * 4096);
    assert_eq!(css.wrap_symbol(-1), 255);
    assert_eq!(css.wrap_symbol(256), 0);
    let narrow = CssLayout::new(plan.data, plan.sample_rate, CssParams { sf: 7, bandwidth_hz: 1000 });
    assert_eq!(narrow.oversampling_factor(), 48);
    assert_eq!(narrow.symbol_count(), 128);
}

/// Reads a frame of chirps from the symbols behind its preamble.
fn read_chirps(css: &CssLayout, syms: &[u16], clear: bool) -> CssAsk {
    let edge = 2000;
    let recorded = edge + (10 + syms.len()) * css.samples_per_symbol();
    let (mut rd, mut ask) = CssReader::start(css, edge, recorded);
    let mut aligned = 0;
    loop {
        let (next, said) = match ask {
            CssAsk::Align(off) => {
                aligned += 1;
                assert_eq!(off, edge + aligned * css.samples_per_symbol());
                rd.on_align(clear && aligned == 3)
            }
            CssAsk::Symbol(j) => rd.on_symbol(syms.get(j - 10).copied()),
            other => {
                assert_eq!(aligned, 6);
                return other;
            }
        };
        rd = next;
        ask = said;
    }
}

#[test]
fn a_frame_of_chirps_is_read() {
    let plan = Profile::Audible.band_plan();
    let css = CssLayout::with_defaults(plan.data, plan.sample_rate);
    let frame = b"\x2B\x10hello acoustic world via CSS chirp modem".to_vec();
    let syms = css.frame_symbols(&frame);
    assert_eq!(syms[0], MAGIC_SYNC);
    assert_eq!(read_chirps(&css, &syms, true), CssAsk::Frame(frame));
    assert_eq!(read_chirps(&css, &syms, false), CssAsk::Lost);
    assert_eq!(read_chirps(&css, &syms[..20], true), CssAsk::Lost);
    let mut other = syms.clone();
    other[0] += 1;
    assert_eq!(read_chirps(&css, &other, true), CssAsk::Lost);
}

#[test]
fn a_frame_begins_where_it_gets_loud() {
    let grid = EdgeGrid::new(10_000, 8192, 256).unwrap();
    assert_eq!((grid.win, grid.step, grid.count), (256, 128, 77));
    assert_eq!(grid.start(76) + grid.win, 9984);
    assert!(EdgeGrid::new(8191, 8192, 256).is_none());
    assert_eq!(EdgeGrid::new(1792, 1792, 56).unwrap().win, 64);
    assert_eq!(first_loud(&[1, 5, 9, 9], 6), Some(2));
    assert_eq!(first_loud(&[1, 5], 6), None);
}

#[test]
fn a_preamble_is_where_its_halves_are_alike() {
    assert_eq!(ofdm::pick_peak(&[9, 3, 7, 7], &[0, 5, 5, 5], 1, 4), Some(2));
    assert_eq!(ofdm::pick_peak(&[9, 3, 7, 7], &[0, 5, 5, 5], 1, 8), None);
    assert_eq!(ofdm::pick_peak(&[], &[], 1, 0), None);
}

#[test]
fn a_symbol_has_its_end_before_it() {
    let useful: Vec<i32> = (0..1024).collect();
    let sent = ofdm::with_prefix(&useful);
    assert_eq!(sent.len(), 1152);
    assert_eq!(sent[0], 896);
    assert_eq!(sent[128], 0);
    let plan = Profile::Audible.band_plan();
    let layout = OfdmLayout::new(plan.data, plan.sample_rate, Modulation::Qpsk);
    let data: Vec<i32> = (0..layout.data_subcarriers() as i32).map(|i| 100 + i).collect();
    let pilots: Vec<i32> = (0..layout.pilot_subcarriers().len() as i32).map(|i| 900 + i).collect();
    let freq = layout.assemble(&data, &pilots, 0);
    assert_eq!(freq.len(), 1024);
    assert_eq!((freq[0], freq[1], freq[2], freq[3]), (0, 0, 900, 100));
    assert_eq!(freq.iter().filter(|&&v| v != 0).count(), layout.active_subcarriers().len());
}

#[test]
fn a_frame_of_tones_is_found() {
    let frame = b"\x2B\x10hello acoustic world via MFSK tones".to_vec();
    let tones = mfsk::frame_tones(&frame);
    assert_eq!(tones.len() * mfsk::SYM, mfsk::frame_samples(frame.len() - 16));
    let edge = 2000;
    let recorded = edge + tones.len() * mfsk::SYM;
    let (mut rd, mut ask) = MfskReader::start(edge, recorded);
    loop {
        match ask {
            MfskAsk::Tone(at) => {
                let (next, said) = rd.on_tone(tones[(at - edge) / mfsk::SYM], true, true);
                rd = next;
                ask = said;
            }
            MfskAsk::Frame(bytes, end) => {
                assert_eq!(bytes, frame);
                assert_eq!(end, recorded);
                return;
            }
            MfskAsk::Lost => panic!("frame lost"),
        }
    }
}

#[test]
fn tones_without_a_preamble_are_no_frame() {
    let (mut rd, mut ask) = MfskReader::start(0, 100_000);
    for _ in 0..200 {
        if ask == MfskAsk::Lost {
            return;
        }
        let (next, said) = rd.on_tone(3, true, true);
        rd = next;
        ask = said;
    }
    panic!("still listening");
}

#[test]
fn tones_lie_around_the_middle() {
    assert_eq!(mfsk::bin_of(0), -16);
    assert_eq!(mfsk::bin_of(8), 0);
    assert_eq!(mfsk::bin_of(15), 14);
    assert_eq!(mfsk::fft_bin(0), 496);
    assert_eq!(mfsk::fft_bin(8), 0);
    assert_eq!(mfsk::min_frame(), 21 * 896 + 512);
}

#[test]
fn a_frame_of_subcarriers_is_read() {
    let plan = Profile::Audible.band_plan();
    for modulation in [Modulation::Qpsk, Modulation::Qam16] {
        let layout = OfdmLayout::new(plan.data, plan.sample_rate, modulation);
        let frame = b"\x2B\x01OFDM QPSK payload over the acoustic link, hello!".to_vec();
        let per = layout.bits_per_symbol();
        let data = layout.data_bits(&frame);
        assert_eq!(data.len() % per, 0);
        let symbols = data.len() / per;
        for peak in [1500usize, 128, 100, 0] {
            let recorded = peak + 1024 + (2 + symbols) * 1152;
            let (rd, ask) = OfdmReader::start(peak, recorded, per);
            assert_eq!(ask, OfdmAsk::Spectrum(peak + 1024 + 128));
            let (rd, ask) = rd.on_channel();
            assert_eq!(ask, OfdmAsk::Spectrum(peak + 1024 + 1152 + 128));
            let (mut rd, mut ask) = rd.on_length(&layout.length_bits(frame.len()));
            let mut i = 0;
            loop {
                match ask {
                    OfdmAsk::Spectrum(_) => {
                        let (next, said) = rd.on_data(&data[i * per..(i + 1) * per]);
                        rd = next;
                        ask = said;
                        i += 1;
                    }
                    OfdmAsk::Frame(bytes, start, end) => {
                        assert_eq!(start, peak.max(128) - 128);
                        assert_eq!(bytes, frame);
                        assert_eq!(end, recorded);
                        break;
                    }
                    OfdmAsk::Lost => panic!("frame lost"),
                }
            }
            assert_eq!(i, symbols);
        }
        assert_eq!(layout.frame_samples(frame.len() - 16), (3 + symbols) * 1152);
    }
}

#[test]
fn a_short_recording_holds_no_subcarriers() {
    let (_, ask) = OfdmReader::start(0, 1000, 100);
    assert_eq!(ask, OfdmAsk::Lost);
    assert_eq!(ofdm::min_frame(), 4608);
    assert_eq!(ofdm::timing(10), 0);
    assert_eq!(ofdm::timing(100), 84);
}

#[test]
fn subcarriers_are_pilots_or_data() {
    let plan = Profile::Audible.band_plan();
    let layout = OfdmLayout::new(plan.data, plan.sample_rate, Modulation::Qam16);
    let active = layout.active_subcarriers();
    // 3192 * 512 / 48000 = 34.04..., two less at the edge.
    assert_eq!(active.len(), 2 * 31);
    assert_eq!(active[0], 2);
    assert_eq!(layout.pilot_subcarriers().len() + layout.data_subcarriers(), active.len());
    assert_eq!(layout.data_carriers().len(), layout.data_subcarriers());
    assert_eq!(layout.modulation(), Modulation::Qam16);
    assert_eq!(layout.mode(), PhyMode::Ofdm16Qam);
    for &bin in layout.pilot_subcarriers() {
        assert!(!layout.data_carriers().contains(&bin));
        let p = ofdm::pilot_point(bin);
        assert_eq!((p.re.abs(), p.im.abs()), (1, 1));
    }
    assert_eq!(ofdm::pn_qpsk(5), ofdm::pn_qpsk(5));
    assert!(ofdm::preamble_point(3).is_none());
    assert!(ofdm::preamble_point(4).is_some());
    assert_ne!(ofdm::channel_point(2), Point { re: 0, im: 0 });
}

#[test]
fn bits_and_groups() {
    assert!(bits::get_byte_bit(0b0100_0000, 6));
    assert!(!bits::get_byte_bit(0b0100_0000, 5));
    assert!(bits::get_symbol_bit(0x8000, 15));
    assert_eq!(bits::append_bit(0b101, true), 0b1011);
    assert_eq!(bits::append_bit(0b101, false), 0b1010);
    assert_eq!(bits::group_count(17, 8), 3);
    assert_eq!(bits::group_count(16, 8), 2);
    assert_eq!(reader::len_syms(8), 2);
    assert_eq!(reader::body_syms(10, 8), 10);
    assert_eq!(mfsk::body_syms(10), 20);
}

#[test]
fn symbols_shift_the_chirp() {
    let layout = CssLayout::with_defaults(Profile::Audible.band_plan().data, 48_000);
    let osf = layout.chirp_index(1, 0);
    assert_eq!(layout.chirp_index(0, 5), 5);
    assert_eq!(layout.chirp_index(3, 5), 5 + 3 * osf);
    assert_eq!(layout.chirp_index(255, osf), 0);
}
