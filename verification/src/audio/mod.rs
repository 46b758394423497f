//! What stands between the modems and the sound card: the receive buffer, the rule by which a
//! device does not listen while it sends, and the choice of a device and its format.

use vstd::prelude::*;

pub mod device;
pub mod duplex;
pub mod pipeline;

verus! {

} // verus!
