//! Watching for sound cards that are plugged in or taken away.

use vstd::prelude::*;
use crate::audio::device::DeviceList;

verus! {

/// How often the devices are looked up, in milliseconds.
pub const POLL_INTERVAL_MS: u64 = 2000;

/// The devices there are.
#[derive(Debug, Clone, PartialEq, Eq)]
pub struct AudioDevices {
    pub inputs: Vec<String>,
    pub outputs: Vec<String>,
    pub default_input: Option<String>,
    pub default_output: Option<String>,
}

/// The names are the same, in the same order.
pub open spec fn same_names(a: Seq<String>, b: Seq<String>) -> bool {
    a.len() == b.len() && forall|i: int| 0 <= i < a.len() ==> (#[trigger] a[i])@ == b[i]@
}

pub open spec fn same_name(a: Option<String>, b: Option<String>) -> bool {
    match (a, b) {
        (Some(x), Some(y)) => x@ == y@,
        (None, None) => true,
        _ => false,
    }
}

impl AudioDevices {
    pub open spec fn is_same(&self, other: &AudioDevices) -> bool {
        &&& same_names(self.inputs@, other.inputs@)
        &&& same_names(self.outputs@, other.outputs@)
        &&& same_name(self.default_input, other.default_input)
        &&& same_name(self.default_output, other.default_output)
    }

    pub fn from_list(list: DeviceList) -> (r: Self)
        ensures
            r.inputs == list.inputs,
            r.outputs == list.outputs,
            r.default_input == list.default_input,
            r.default_output == list.default_output,
    {
        AudioDevices {
            inputs: list.inputs,
            outputs: list.outputs,
            default_input: list.default_input,
            default_output: list.default_output,
        }
    }

    /// Whether two lists of devices are the same.
    pub fn same(&self, other: &AudioDevices) -> (r: bool)
        ensures
            r == self.is_same(other),
    {
        equal_names(&self.inputs, &other.inputs) && equal_names(&self.outputs, &other.outputs)
            && equal_name(&self.default_input, &other.default_input) && equal_name(
            &self.default_output,
            &other.default_output,
        )
    }
}

fn equal_names(a: &Vec<String>, b: &Vec<String>) -> (r: bool)
    ensures
        r == same_names(a@, b@),
{
    if a.len() != b.len() {
        return false;
    }
    let mut i: usize = 0;
    while i < a.len()
        invariant
            i <= a@.len(),
            a@.len() == b@.len(),
            forall|k: int| 0 <= k < i ==> (#[trigger] a@[k])@ == b@[k]@,
        decreases a@.len() - i,
    {
        if a[i] != b[i] {
            assert(a@[i as int]@ != b@[i as int]@);
            return false;
        }
        i += 1;
    }
    true
}

fn equal_name(a: &Option<String>, b: &Option<String>) -> (r: bool)
    ensures
        r == same_name(*a, *b),
{
    match (a, b) {
        (Some(x), Some(y)) => *x == *y,
        (None, None) => true,
        _ => false,
    }
}

/// What is known of the devices.
pub struct Watch {
    prev: Option<AudioDevices>,
}

impl Watch {
    pub closed spec fn known(&self) -> Option<AudioDevices> {
        self.prev
    }

    pub fn new() -> (r: Self)
        ensures
            r.known() is None,
    {
        Watch { prev: None }
    }

    /// Takes a look at the devices. Says whether they are to be announced: at first, and whenever
    /// they are not as they were.
    pub fn on_snapshot(&mut self, current: AudioDevices) -> (r: bool)
        ensures
            r <==> !(old(self).known() matches Some(p) && p.is_same(&current)),
            final(self).known() == (if r {
                Some(current)
            } else {
                old(self).known()
            }),
    {
        let unchanged: bool = match &self.prev {
            Some(p) => p.same(&current),
            None => false,
        };
        if unchanged {
            false
        } else {
            self.prev = Some(current);
            true
        }
    }

    /// The devices as they were last announced.
    pub fn last(&self) -> (r: Option<&AudioDevices>)
        ensures
            match r {
                Some(d) => self.known() == Some(*d),
                None => self.known() is None,
            },
    {
        match &self.prev {
            Some(d) => Some(d),
            None => None,
        }
    }
}

/// Devices that stay as they are are announced once: they are the same as themselves.
pub proof fn law_announced_once(devices: AudioDevices)
    ensures
        devices.is_same(&devices),
{
}

/// Devices count as the same only if they are listed in the same order under the same names, with
/// the same defaults.
pub proof fn law_any_change_is_seen(a: AudioDevices, b: AudioDevices, i: int)
    requires
        a.is_same(&b),
    ensures
        a.inputs@.len() == b.inputs@.len(),
        a.outputs@.len() == b.outputs@.len(),
        0 <= i < a.inputs@.len() ==> a.inputs@[i]@ == b.inputs@[i]@,
        0 <= i < a.outputs@.len() ==> a.outputs@[i]@ == b.outputs@[i]@,
        a.default_input is Some <==> b.default_input is Some,
        a.default_output is Some <==> b.default_output is Some,
        a.default_input is Some ==> a.default_input->0@ == b.default_input->0@,
        a.default_output is Some ==> a.default_output->0@ == b.default_output->0@,
        b.is_same(&a),
{
}

/// Devices with the same names in the same order and the same defaults are the same.
pub proof fn law_the_same_names_are_the_same(a: AudioDevices, b: AudioDevices)
    requires
        a.inputs@.len() == b.inputs@.len(),
        a.outputs@.len() == b.outputs@.len(),
        forall|i: int| 0 <= i < a.inputs@.len() ==> (#[trigger] a.inputs@[i])@ == b.inputs@[i]@,
        forall|i: int| 0 <= i < a.outputs@.len() ==> (#[trigger] a.outputs@[i])@ == b.outputs@[i]@,
        a.default_input is Some <==> b.default_input is Some,
        a.default_output is Some <==> b.default_output is Some,
        a.default_input is Some ==> a.default_input->0@ == b.default_input->0@,
        a.default_output is Some ==> a.default_output->0@ == b.default_output->0@,
    ensures
        a.is_same(&b),
{
}

/// The devices are looked at every two seconds.
pub proof fn law_time_between_looks()
    ensures
        POLL_INTERVAL_MS == 2000,
{
}

} // verus!
