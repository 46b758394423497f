//! What a measurement of the channel is taken from, and what mode it speaks for. Ratios are given
//! in whole decibels, rounded down.

use vstd::prelude::*;
use crate::text;

verus! {

pub const NOISE_CAPTURE_MS: u64 = 700;

pub const PROBE_TOTAL_MS: u64 = 1500;

pub const PROBE_SKIP_MS: u64 = 300;

pub const PROBE_ANALYZE_MS: u64 = 900;

pub const MIN_VALID_SAMPLES_MS: u64 = 50;

/// The devices that the user chose. Without a name, or with a blank one, the system's own is
/// meant.
#[derive(Debug, Clone, PartialEq, Eq)]
pub struct AudioSelection {
    pub input: Option<String>,
    pub output: Option<String>,
}

/// The name, unless it is blank.
pub open spec fn chosen(name: Option<String>) -> Option<Seq<char>> {
    match name {
        Some(n) => if text::trimmed_of(n@).len() == 0 {
            None
        } else {
            Some(n@)
        },
        None => None,
    }
}

/// The name, unless it is blank.
pub fn chosen_name(name: &Option<String>) -> (r: Option<&str>)
    ensures
        match r {
            Some(n) => chosen(*name) == Some(n@),
            None => chosen(*name) is None,
        },
{
    match name {
        Some(n) => if text::is_blank(n.as_str()) {
            None
        } else {
            Some(n.as_str())
        },
        None => None,
    }
}

impl Default for AudioSelection {
    fn default() -> (r: Self)
        ensures
            r.input is None,
            r.output is None,
    {
        AudioSelection { input: None, output: None }
    }
}

impl AudioSelection {
    pub fn input_name(&self) -> (r: Option<&str>)
        ensures
            match r {
                Some(n) => chosen(self.input) == Some(n@),
                None => chosen(self.input) is None,
            },
    {
        chosen_name(&self.input)
    }

    pub fn output_name(&self) -> (r: Option<&str>)
        ensures
            match r {
                Some(n) => chosen(self.output) == Some(n@),
                None => chosen(self.output) is None,
            },
    {
        chosen_name(&self.output)
    }
}

/// The samples of a time at a rate.
pub open spec fn samples_of(sample_rate: u32, ms: u64) -> int {
    sample_rate as int * ms as int / 1000
}

/// The samples of a time at a rate.
pub fn sample_count(sample_rate: u32, ms: u64) -> (r: usize)
    requires
        ms <= 1000,
    ensures
        r == samples_of(sample_rate, ms),
{
    let rate: u64 = sample_rate as u64;
    proof {
        assert(rate * ms <= rate * 1000) by (nonlinear_arith)
            requires
                ms <= 1000,
        ;
        assert(rate * ms >= 0) by (nonlinear_arith);
    }
    (rate * ms / 1000) as usize
}

/// Whether a recording holds enough to say anything of: a twentieth of a second, and something.
pub fn is_enough(samples: usize, sample_rate: u32) -> (r: bool)
    ensures
        r <==> samples > 0 && samples >= samples_of(sample_rate, MIN_VALID_SAMPLES_MS),
{
    samples > 0 && samples >= sample_count(sample_rate, MIN_VALID_SAMPLES_MS)
}

/// What is looked at of the recordings: of the probe, the part from `start` to `end`; of the
/// noise, the first `noise_end` samples.
#[derive(Debug, Clone, Copy, PartialEq, Eq, Structural)]
pub struct Windows {
    pub start: usize,
    pub end: usize,
    pub noise_end: usize,
}

/// The smaller of two numbers.
pub open spec fn smaller(a: int, b: int) -> int {
    if a <= b {
        a
    } else {
        b
    }
}

/// The steady part of the probe: what follows its first 300 milliseconds, 900 of them at most; and
/// as much of the noise.
pub fn analysis_windows(noise_samples: usize, tone_samples: usize, sample_rate: u32) -> (r: Windows)
    ensures
        r.start == smaller(samples_of(sample_rate, PROBE_SKIP_MS), tone_samples as int),
        r.end == smaller(
            r.start + samples_of(sample_rate, PROBE_ANALYZE_MS),
            tone_samples as int,
        ),
        r.start <= r.end <= tone_samples,
        r.noise_end == smaller(
            samples_of(sample_rate, PROBE_ANALYZE_MS),
            noise_samples as int,
        ),
{
    let skip: usize = sample_count(sample_rate, PROBE_SKIP_MS);
    let window: usize = sample_count(sample_rate, PROBE_ANALYZE_MS);
    let start: usize = if skip <= tone_samples {
        skip
    } else {
        tone_samples
    };
    let end: usize = if window <= tone_samples - start {
        start + window
    } else {
        tone_samples
    };
    let noise_end: usize = if window <= noise_samples {
        window
    } else {
        noise_samples
    };
    Windows { start, end, noise_end }
}

/// A mode that is recommended: its name, how it is shown, and the bits it carries in a second.
#[derive(Debug, Clone, Copy, PartialEq, Eq)]
pub struct Recommendation {
    pub mode: &'static str,
    pub label: &'static str,
    pub bitrate_bps: u32,
}

/// The mode for a ratio of signal to noise.
pub fn select_mode(snr_db: i32) -> (r: Recommendation)
    ensures
        snr_db < 4 ==> r.mode@ == "CSS"@ && r.label@
            == "CSS (Chirp Spread Spectrum) — максимальная надёжность"@ && r.bitrate_bps == 187,
        4 <= snr_db < 9 ==> r.mode@ == "MFSK"@ && r.label@
            == "MFSK (тоновая манипуляция) — надёжный, устойчив к дрейфу"@ && r.bitrate_bps == 214,
        9 <= snr_db < 15 ==> r.mode@ == "OFDM_QPSK"@ && r.label@
            == "OFDM + QPSK — сбалансированный режим"@ && r.bitrate_bps == 10_000,
        15 <= snr_db < 25 ==> r.mode@ == "OFDM_16QAM"@ && r.label@
            == "OFDM + 16-QAM — высокая скорость"@ && r.bitrate_bps == 20_000,
        25 <= snr_db ==> r.mode@ == "OFDM_64QAM"@ && r.label@
            == "OFDM + 64-QAM — максимальная скорость"@ && r.bitrate_bps == 30_000,
{
    if snr_db < 4 {
        Recommendation {
            mode: "CSS",
            label: "CSS (Chirp Spread Spectrum) — максимальная надёжность",
            bitrate_bps: 187,
        }
    } else if snr_db < 9 {
        Recommendation {
            mode: "MFSK",
            label: "MFSK (тоновая манипуляция) — надёжный, устойчив к дрейфу",
            bitrate_bps: 214,
        }
    } else if snr_db < 15 {
        Recommendation {
            mode: "OFDM_QPSK",
            label: "OFDM + QPSK — сбалансированный режим",
            bitrate_bps: 10_000,
        }
    } else if snr_db < 25 {
        Recommendation {
            mode: "OFDM_16QAM",
            label: "OFDM + 16-QAM — высокая скорость",
            bitrate_bps: 20_000,
        }
    } else {
        Recommendation {
            mode: "OFDM_64QAM",
            label: "OFDM + 64-QAM — максимальная скорость",
            bitrate_bps: 30_000,
        }
    }
}

/// How clear the channel is, in a word.
pub fn clarity_label(snr_db: i32) -> (r: &'static str)
    ensures
        snr_db >= 25 ==> r@ == "Отличная"@,
        15 <= snr_db < 25 ==> r@ == "Хорошая"@,
        8 <= snr_db < 15 ==> r@ == "Средняя"@,
        0 <= snr_db < 8 ==> r@ == "Шумная"@,
        snr_db < 0 ==> r@ == "Очень шумная"@,
{
    if snr_db >= 25 {
        "Отличная"
    } else if snr_db >= 15 {
        "Хорошая"
    } else if snr_db >= 8 {
        "Средняя"
    } else if snr_db >= 0 {
        "Шумная"
    } else {
        "Очень шумная"
    }
}

/// A name is chosen as it is given, unless it is blank.
pub proof fn law_blank_names_choose_nothing(name: Option<String>)
    ensures
        chosen(name) is Some <==> name is Some && text::trimmed_of(name->0@).len() > 0,
        chosen(name) is Some ==> chosen(name)->0 == name->0@,
{
}

/// The samples of a time are as many whole ones as fit into it.
pub proof fn law_samples_of_a_time(sample_rate: u32, ms: u64)
    ensures
        1000 * samples_of(sample_rate, ms) <= sample_rate * ms < 1000 * (samples_of(
            sample_rate,
            ms,
        ) + 1),
{
    let x = sample_rate as int * ms as int;
    assert(1000 * (x / 1000) <= x < 1000 * (x / 1000 + 1));
}

/// The smaller of two numbers is one of them, and neither is below it.
pub proof fn law_smaller(a: int, b: int)
    ensures
        smaller(a, b) <= a,
        smaller(a, b) <= b,
        smaller(a, b) == a || smaller(a, b) == b,
{
}

/// The noise is captured for 700 milliseconds. Of a probe of 1500, the first 300 are skipped and 900
/// are looked at. Less than 50 are not enough.
pub proof fn law_times_of_a_probe()
    ensures
        NOISE_CAPTURE_MS == 700,
        PROBE_TOTAL_MS == 1500,
        PROBE_SKIP_MS == 300,
        PROBE_ANALYZE_MS == 900,
        MIN_VALID_SAMPLES_MS == 50,
{
}

} // verus!
