//! ADL/1, an acoustic data link: what a messenger that talks through loudspeakers and microphones
//! decides and computes, apart from the signal processing itself.
//!
//! - [`bandplan`]: which frequencies a device sends and listens in.
//! - [`modem`]: the symbols, bits and positions of the modulations, and the readers that put
//!   together a frame from what a demodulator hears.
//! - [`framing`]: the bytes of a frame and its checksum ([`crc`]).
//! - [`fec`]: Reed-Solomon codes and an interleaver, which repair what arrives damaged.
//! - [`arq`]: a sliding window with selective acknowledgement, and the ladder of modes.
//! - [`session`]: messages cut into pieces and put together again, and the session that runs it all.
//! - [`audio`]: the receive buffer, taking turns on one band, the choice of a sound card
//!   ([`audio_watch`] sees them come and go).
//! - [`acoustic_beacon`], [`discovery`]: how devices find each other by sound.
//! - [`channel_check`], [`self_test`]: what a measurement says.
//! - [`commands`], [`text`]: what the user asks for, in words.
//! - [`sim`], [`order`]: pseudo-random numbers, and values by rank.

pub mod acoustic_beacon;
pub mod arq;
pub mod audio;
pub mod audio_watch;
pub mod bandplan;
pub mod channel_check;
pub mod commands;
pub mod crc;
pub mod discovery;
pub mod fec;
pub mod framing;
pub mod modem;
pub mod order;
pub mod self_test;
pub mod session;
pub mod sim;
pub mod text;

pub use arq::ArqConfig;
pub use arq::fallback::AutoFallback;
pub use arq::receiver::ArqReceiver;
pub use arq::sender::ArqSender;
pub use bandplan::{DuplexScheme, EchoCanceller, Fdd, NoopEchoCanceller, Profile, Role, SubBand};
pub use framing::{Frame, FrameHeader, FramingError, PhyMode};
pub use modem::ModemState;
