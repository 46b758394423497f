//! The plan of the spectrum, and who sends where.
//!
//! By default both directions share one band, 504 to 3696 Hz, which practically every speaker and
//! microphone passes: the devices take turns, and a receiver is deaf while its own device sends.
//! Two separate bands are kept for the ultrasonic profile, which has converters of its own.
//!
//! A modulator knows nothing of this. It asks a [`DuplexScheme`] where to send and to listen.

use vstd::prelude::*;

verus! {

/// The range of frequencies that is used.
#[derive(Debug, Clone, Copy, PartialEq, Eq, Structural)]
pub enum Profile {
    /// What built-in speakers and microphones pass.
    Audible,
    /// 21 to 24 kHz, for separate transducers.
    Ultrasonic,
}

/// The part of a device in a session, chosen by its user.
#[derive(Debug, Clone, Copy, PartialEq, Eq, Structural)]
pub enum Role {
    Initiator,
    Responder,
}

impl Role {
    pub open spec fn bit(self) -> u8 {
        match self {
            Role::Initiator => 0,
            Role::Responder => 1,
        }
    }

    /// The direction in a header.
    pub fn direction_bit(self) -> (r: u8)
        ensures
            r == self.bit(),
    {
        match self {
            Role::Initiator => 0,
            Role::Responder => 1,
        }
    }
}

/// A band of frequencies between two edges, in hertz.
#[derive(Debug, Clone, Copy, PartialEq, Eq, Structural)]
pub struct SubBand {
    pub low: u32,
    pub high: u32,
}

impl SubBand {
    pub open spec fn wf(&self) -> bool {
        self.low <= self.high
    }

    pub fn from_edges(low_hz: u32, high_hz: u32) -> (r: Self)
        ensures
            r == (SubBand { low: low_hz, high: high_hz }),
    {
        SubBand { low: low_hz, high: high_hz }
    }

    pub fn low_hz(&self) -> (r: u32)
        ensures
            r == self.low,
    {
        self.low
    }

    pub fn high_hz(&self) -> (r: u32)
        ensures
            r == self.high,
    {
        self.high
    }

    /// The width of the band.
    pub fn bandwidth_hz(&self) -> (r: u32)
        requires
            self.wf(),
        ensures
            r == self.high - self.low,
    {
        self.high - self.low
    }

    /// Twice the frequency in the middle, which may lie between two whole hertz.
    pub fn double_center_hz(&self) -> (r: u64)
        ensures
            r == self.low + self.high,
    {
        self.low as u64 + self.high as u64
    }
}

/// The bands of a profile: the shared one, the two separate ones, and the sample rate.
#[derive(Debug, Clone, Copy, PartialEq, Eq, Structural)]
pub struct BandPlan {
    pub data: SubBand,
    pub lower: SubBand,
    pub upper: SubBand,
    pub sample_rate: u32,
}

impl Profile {
    pub open spec fn plan(self) -> BandPlan {
        match self {
            Profile::Audible => BandPlan {
                data: SubBand { low: 504, high: 3696 },
                lower: SubBand { low: 504, high: 3696 },
                upper: SubBand { low: 504, high: 3696 },
                sample_rate: 48000,
            },
            Profile::Ultrasonic => BandPlan {
                data: SubBand { low: 21000, high: 24000 },
                lower: SubBand { low: 21000, high: 22400 },
                upper: SubBand { low: 22600, high: 24000 },
                sample_rate: 48000,
            },
        }
    }

    pub fn band_plan(self) -> (r: BandPlan)
        ensures
            r == self.plan(),
    {
        match self {
            Profile::Audible => BandPlan {
                data: SubBand::from_edges(504, 3696),
                lower: SubBand::from_edges(504, 3696),
                upper: SubBand::from_edges(504, 3696),
                sample_rate: 48000,
            },
            Profile::Ultrasonic => BandPlan {
                data: SubBand::from_edges(21000, 24000),
                lower: SubBand::from_edges(21000, 22400),
                upper: SubBand::from_edges(22600, 24000),
                sample_rate: 48000,
            },
        }
    }
}

/// Where a device sends and listens.
pub trait DuplexScheme {
    spec fn sends_in(&self) -> SubBand;

    spec fn listens_in(&self) -> SubBand;

    spec fn rate(&self) -> u32;

    spec fn side(&self) -> Role;

    /// The band in which this device sends.
    fn tx_band(&self) -> (r: SubBand)
        ensures
            r == self.sends_in(),
    ;

    /// The band in which this device listens, where its peer sends.
    fn rx_band(&self) -> (r: SubBand)
        ensures
            r == self.listens_in(),
    ;

    fn sample_rate(&self) -> (r: u32)
        ensures
            r == self.rate(),
    ;

    fn role(&self) -> (r: Role)
        ensures
            r == self.side(),
    ;

    /// What takes the device's own echo out of what it hears. No scheme needs one so far.
    fn echo_canceller(&self) -> NoopEchoCanceller;
}

/// Two separate bands: the initiator sends in the lower one.
#[derive(Debug, Clone, Copy, PartialEq, Eq, Structural)]
pub struct Fdd {
    pub role: Role,
    pub profile: Profile,
}

impl Fdd {
    pub fn new(role: Role, profile: Profile) -> (r: Self)
        ensures
            r == (Fdd { role, profile }),
    {
        Fdd { role, profile }
    }
}

impl DuplexScheme for Fdd {
    open spec fn sends_in(&self) -> SubBand {
        match self.role {
            Role::Initiator => self.profile.plan().lower,
            Role::Responder => self.profile.plan().upper,
        }
    }

    open spec fn listens_in(&self) -> SubBand {
        match self.role {
            Role::Initiator => self.profile.plan().upper,
            Role::Responder => self.profile.plan().lower,
        }
    }

    open spec fn rate(&self) -> u32 {
        self.profile.plan().sample_rate
    }

    open spec fn side(&self) -> Role {
        self.role
    }

    fn tx_band(&self) -> (r: SubBand) {
        let plan: BandPlan = self.profile.band_plan();
        match self.role {
            Role::Initiator => plan.lower,
            Role::Responder => plan.upper,
        }
    }

    fn rx_band(&self) -> (r: SubBand) {
        let plan: BandPlan = self.profile.band_plan();
        match self.role {
            Role::Initiator => plan.upper,
            Role::Responder => plan.lower,
        }
    }

    fn sample_rate(&self) -> (r: u32) {
        self.profile.band_plan().sample_rate
    }

    fn role(&self) -> (r: Role) {
        self.role
    }

    fn echo_canceller(&self) -> NoopEchoCanceller {
        NoopEchoCanceller
    }
}

/// One shared band in which devices take turns.
#[derive(Debug, Clone, Copy, PartialEq, Eq, Structural)]
pub struct Tdd {
    pub role: Role,
    pub profile: Profile,
}

impl Tdd {
    pub fn new(role: Role, profile: Profile) -> (r: Self)
        ensures
            r == (Tdd { role, profile }),
    {
        Tdd { role, profile }
    }
}

impl DuplexScheme for Tdd {
    open spec fn sends_in(&self) -> SubBand {
        self.profile.plan().data
    }

    open spec fn listens_in(&self) -> SubBand {
        self.profile.plan().data
    }

    open spec fn rate(&self) -> u32 {
        self.profile.plan().sample_rate
    }

    open spec fn side(&self) -> Role {
        self.role
    }

    fn tx_band(&self) -> (r: SubBand) {
        self.profile.band_plan().data
    }

    fn rx_band(&self) -> (r: SubBand) {
        self.profile.band_plan().data
    }

    fn sample_rate(&self) -> (r: u32) {
        self.profile.band_plan().sample_rate
    }

    fn role(&self) -> (r: Role) {
        self.role
    }

    fn echo_canceller(&self) -> NoopEchoCanceller {
        NoopEchoCanceller
    }
}

/// With either scheme a device listens where a peer in the other role sends, and the roles are
/// told apart by their directions.
pub proof fn law_peers_hear_each_other(a: Role, b: Role, profile: Profile)
    requires
        a != b,
    ensures
        (Fdd { role: a, profile }).sends_in() == (Fdd { role: b, profile }).listens_in(),
        (Fdd { role: a, profile }).listens_in() == (Fdd { role: b, profile }).sends_in(),
        (Tdd { role: a, profile }).sends_in() == (Tdd { role: b, profile }).listens_in(),
        (Tdd { role: a, profile }).sends_in() == (Tdd { role: b, profile }).sends_in(),
        a.bit() != b.bit(),
{
}

/// Separate bands do not overlap in the ultrasonic profile.
pub proof fn law_separate_bands(role: Role)
    ensures
        ({
            let s = (Fdd { role, profile: Profile::Ultrasonic });
            s.sends_in().high < s.listens_in().low || s.listens_in().high < s.sends_in().low
        }),
{
}

/// Every band of every profile is below half the sample rate, and the audible one is within what
/// a telephone passes.
pub proof fn law_bands_are_usable(profile: Profile)
    ensures
        2 * profile.plan().data.high <= profile.plan().sample_rate,
        2 * profile.plan().lower.high <= profile.plan().sample_rate,
        2 * profile.plan().upper.high <= profile.plan().sample_rate,
        profile is Audible ==> 400 <= profile.plan().data.low && profile.plan().data.high <= 3800,
        profile.plan().data.wf() && profile.plan().lower.wf() && profile.plan().upper.wf(),
{
}

/// Takes the own echo out of what was captured, sample by sample. `reference` is what was played
/// meanwhile.
pub trait EchoCanceller<S> {
    fn process(&mut self, captured: &mut Vec<S>, reference: &[S])
        ensures
            final(captured)@.len() == old(captured)@.len(),
    ;
}

/// Leaves everything as it is: no scheme has an echo in its band.
pub struct NoopEchoCanceller;

impl<S> EchoCanceller<S> for NoopEchoCanceller {
    fn process(&mut self, captured: &mut Vec<S>, reference: &[S])
        ensures
            final(captured)@ == old(captured)@,
    {
    }
}

/// The edges of the bands, in hertz: 504 and 3696 in the audible profile, where all share one band;
/// 21000 and 24000 in the ultrasonic one, with 200 free between the two separate ones, which are
/// equally wide.
pub proof fn law_edges_of_bands()
    ensures
        ({
            let p = Profile::Audible.plan();
            &&& p.data.low == 504 && p.data.high == 3696
            &&& p.lower == p.data && p.upper == p.data
            &&& p.sample_rate == 48000
        }),
        ({
            let p = Profile::Ultrasonic.plan();
            &&& p.data.low == 21000 && p.data.high == 24000
            &&& p.lower.low == p.data.low && p.upper.high == p.data.high
            &&& p.upper.low - p.lower.high == 200
            &&& p.lower.high - p.lower.low == p.upper.high - p.upper.low
            &&& p.sample_rate == 48000
        }),
{
}

/// On separate bands the initiator sends in the lower one and the responder in the upper one; on a
/// shared one both send where they listen. A scheme keeps the role and the rate it was made with.
pub proof fn law_who_sends_where(profile: Profile, role: Role)
    ensures
        (Fdd { role: Role::Initiator, profile }).sends_in() == profile.plan().lower,
        (Fdd { role: Role::Responder, profile }).sends_in() == profile.plan().upper,
        (Tdd { role, profile }).sends_in() == profile.plan().data,
        (Tdd { role, profile }).listens_in() == profile.plan().data,
        (Fdd { role, profile }).side() == role,
        (Tdd { role, profile }).side() == role,
        (Fdd { role, profile }).rate() == profile.plan().sample_rate,
        (Tdd { role, profile }).rate() == profile.plan().sample_rate,
        Role::Initiator.bit() == 0,
        Role::Responder.bit() == 1,
{
}

} // verus!
