//! The choice of a sound card, and of the format in which it is opened.

use vstd::prelude::*;

verus! {

/// How a sound card holds a sample.
#[derive(Debug, Clone, Copy, PartialEq, Eq, Structural)]
pub enum SampleFormat {
    I8,
    I16,
    I32,
    I64,
    U8,
    U16,
    U32,
    U64,
    F32,
    F64,
    Other,
}

/// How much a format is liked: the smaller, the more.
pub open spec fn rank(f: SampleFormat) -> u8 {
    match f {
        SampleFormat::F32 => 0,
        SampleFormat::I16 => 1,
        SampleFormat::I32 => 2,
        SampleFormat::U16 => 3,
        SampleFormat::F64 => 4,
        SampleFormat::I64 => 5,
        SampleFormat::U32 => 6,
        SampleFormat::U64 => 7,
        SampleFormat::I8 => 8,
        SampleFormat::U8 => 9,
        SampleFormat::Other => 10,
    }
}

/// How much a format is liked: the smaller, the more. Samples are computed in F32, so that comes
/// first; eight bits come last.
pub fn format_rank(f: SampleFormat) -> (r: u8)
    ensures
        r == rank(f),
{
    match f {
        SampleFormat::F32 => 0,
        SampleFormat::I16 => 1,
        SampleFormat::I32 => 2,
        SampleFormat::U16 => 3,
        SampleFormat::F64 => 4,
        SampleFormat::I64 => 5,
        SampleFormat::U32 => 6,
        SampleFormat::U64 => 7,
        SampleFormat::I8 => 8,
        SampleFormat::U8 => 9,
        SampleFormat::Other => 10,
    }
}

/// The rates that a sound card offers in one format.
#[derive(Debug, Clone, Copy, PartialEq, Eq, Structural)]
pub struct ConfigRange {
    pub min_rate: u32,
    pub max_rate: u32,
    pub format: SampleFormat,
}

impl ConfigRange {
    pub open spec fn offers(&self, rate: u32) -> bool {
        self.min_rate <= rate <= self.max_rate
    }
}

/// The first of the ranges that offer the rate in the format that is liked most.
pub open spec fn is_best(ranges: Seq<ConfigRange>, rate: u32, i: int) -> bool {
    &&& 0 <= i < ranges.len()
    &&& ranges[i].offers(rate)
    &&& forall|j: int|
        0 <= j < ranges.len() && (#[trigger] ranges[j]).offers(rate) ==> rank(ranges[i].format)
            <= rank(ranges[j].format)
    &&& forall|j: int|
        0 <= j < i && (#[trigger] ranges[j]).offers(rate) ==> rank(ranges[i].format) < rank(
            ranges[j].format,
        )
}

/// The index of the best range at the rate, if there is one.
pub fn pick_at_rate(ranges: &[ConfigRange], rate: u32) -> (r: Option<usize>)
    ensures
        match r {
            Some(i) => is_best(ranges@, rate, i as int),
            None => forall|j: int| 0 <= j < ranges@.len() ==> !(#[trigger] ranges@[j]).offers(rate),
        },
{
    let mut best: Option<usize> = None;
    let mut i: usize = 0;
    while i < ranges.len()
        invariant
            i <= ranges@.len(),
            match best {
                Some(b) => is_best(ranges@.take(i as int), rate, b as int),
                None => forall|j: int| 0 <= j < i ==> !(#[trigger] ranges@[j]).offers(rate),
            },
        decreases ranges@.len() - i,
    {
        let ghost before = ranges@.take(i as int);
        let ghost after = ranges@.take(i + 1);
        let range: ConfigRange = ranges[i];
        proof {
            assert forall|j: int| 0 <= j < i implies #[trigger] after[j] == before[j] by {}
            assert(after[i as int] == range);
        }
        if range.min_rate <= rate && rate <= range.max_rate {
            let better: bool = match best {
                Some(b) => format_rank(range.format) < format_rank(ranges[b].format),
                None => true,
            };
            if better {
                best = Some(i);
            }
        }
        proof {
            if let Some(b) = best {
                assert forall|j: int|
                    0 <= j < after.len() && (#[trigger] after[j]).offers(rate) implies rank(
                    after[b as int].format,
                ) <= rank(after[j].format) by {
                    if j < i {
                        assert(before[j] == ranges@[j]);
                        assert(before[j].offers(rate));
                    }
                }
                assert forall|j: int|
                    0 <= j < b && (#[trigger] after[j]).offers(rate) implies rank(
                    after[b as int].format,
                ) < rank(after[j].format) by {
                    if j < i {
                        assert(before[j] == ranges@[j]);
                        assert(before[j].offers(rate));
                    }
                }
            }
        }
        i += 1;
    }
    assert(ranges@.take(i as int) =~= ranges@);
    best
}

/// Which configuration a device is opened with.
#[derive(Debug, Clone, Copy, PartialEq, Eq, Structural)]
pub enum ConfigChoice {
    /// The range with this index, at the rate wanted.
    Range(usize),
    /// The device's own.
    Default,
}

/// The best range at the rate wanted, or else the device's own configuration, at whatever rate.
/// If there is neither, there is no configuration.
pub fn best_config(ranges: &[ConfigRange], target_rate: u32, has_default: bool) -> (r: Option<
    ConfigChoice,
>)
    ensures
        match r {
            Some(ConfigChoice::Range(i)) => is_best(ranges@, target_rate, i as int),
            Some(ConfigChoice::Default) => has_default && forall|j: int|
                0 <= j < ranges@.len() ==> !(#[trigger] ranges@[j]).offers(target_rate),
            None => !has_default && forall|j: int|
                0 <= j < ranges@.len() ==> !(#[trigger] ranges@[j]).offers(target_rate),
        },
{
    match pick_at_rate(ranges, target_rate) {
        Some(i) => Some(ConfigChoice::Range(i)),
        None => if has_default {
            Some(ConfigChoice::Default)
        } else {
            None
        },
    }
}

/// Which device is opened.
#[derive(Debug, Clone, Copy, PartialEq, Eq, Structural)]
pub enum DeviceChoice {
    /// The one with this index in the list.
    Listed(usize),
    /// The system's own.
    Fallback,
}

/// The device is the one that was asked for.
pub open spec fn named(listed: Seq<Option<String>>, name: Seq<char>, i: int) -> bool {
    0 <= i < listed.len() && (listed[i] matches Some(n) && n@ == name)
}

/// The first listed device with the name asked for, or else the system's own: a device may have
/// been unplugged. A device whose name cannot be read is listed as `None`. Without a list, or
/// with an empty name, it is the system's own too. If there is no such device, there is none.
pub fn resolve_device(
    listed: &Vec<Option<String>>,
    has_fallback: bool,
    name: &Option<String>,
) -> (r: Option<DeviceChoice>)
    ensures
        match r {
            Some(DeviceChoice::Listed(i)) => name matches Some(n) && n@.len() > 0 && named(
                listed@,
                n@,
                i as int,
            ) && forall|j: int| 0 <= j < i ==> !#[trigger] named(listed@, n@, j),
            Some(DeviceChoice::Fallback) => has_fallback,
            None => !has_fallback,
        },
        r != Some(DeviceChoice::Fallback) && r is Some || (name matches Some(n) ==> n@.len() == 0
            || forall|j: int| !#[trigger] named(listed@, n@, j)),
{
    if let Some(n) = name {
        if n.as_str().unicode_len() > 0 {
            let mut i: usize = 0;
            while i < listed.len()
                invariant
                    i <= listed@.len(),
                    *name == Some(*n),
                    n@.len() > 0,
                    forall|j: int| 0 <= j < i ==> !#[trigger] named(listed@, n@, j),
                decreases listed@.len() - i,
            {
                if let Some(other) = &listed[i] {
                    if *other == *n {
                        assert(named(listed@, n@, i as int));
                        return Some(DeviceChoice::Listed(i));
                    }
                }
                i += 1;
            }
            assert forall|j: int| !#[trigger] named(listed@, n@, j) by {}
        }
    }
    if has_fallback {
        Some(DeviceChoice::Fallback)
    } else {
        None
    }
}

/// The names of the devices there are.
#[derive(Debug, Clone, PartialEq, Eq)]
pub struct DeviceList {
    pub inputs: Vec<String>,
    pub outputs: Vec<String>,
    pub default_input: Option<String>,
    pub default_output: Option<String>,
}

impl Default for DeviceList {
    fn default() -> (r: Self)
        ensures
            r.inputs@ == Seq::<String>::empty(),
            r.outputs@ == Seq::<String>::empty(),
            r.default_input is None,
            r.default_output is None,
    {
        DeviceList {
            inputs: Vec::new(),
            outputs: Vec::new(),
            default_input: None,
            default_output: None,
        }
    }
}

/// There is only one best range.
pub proof fn law_best_is_one(ranges: Seq<ConfigRange>, rate: u32, i: int, j: int)
    requires
        is_best(ranges, rate, i),
        is_best(ranges, rate, j),
    ensures
        i == j,
{
    if i < j {
        assert(ranges[i].offers(rate));
    }
    if j < i {
        assert(ranges[j].offers(rate));
    }
}

/// The order in which formats are liked.
pub proof fn law_order_of_formats()
    ensures
        rank(SampleFormat::F32) < rank(SampleFormat::I16) < rank(SampleFormat::I32) < rank(
            SampleFormat::U16,
        ) < rank(SampleFormat::F64) < rank(SampleFormat::I64) < rank(SampleFormat::U32) < rank(
            SampleFormat::U64,
        ) < rank(SampleFormat::I8) < rank(SampleFormat::U8) < rank(SampleFormat::Other),
        rank(SampleFormat::F32) == 0,
        rank(SampleFormat::Other) == 10,
{
}

/// A range offers the rates between its ends, both of them too.
pub proof fn law_which_rates_are_offered(range: ConfigRange, rate: u32)
    ensures
        range.offers(rate) <==> !(rate < range.min_rate) && !(rate > range.max_rate),
{
}

/// A range that is taken offers the rate; no other that does is in a format that is liked more, and
/// none before it in the same one.
pub proof fn law_best_range(ranges: Seq<ConfigRange>, rate: u32, i: int, j: int)
    requires
        is_best(ranges, rate, i),
        0 <= j < ranges.len(),
        ranges[j].offers(rate),
    ensures
        0 <= i < ranges.len(),
        ranges[i].offers(rate),
        rank(ranges[i].format) <= rank(ranges[j].format),
        ranges[i].format == ranges[j].format ==> i <= j,
{
}

/// A device is the one asked for exactly if its name can be read and is the same, character by
/// character.
pub proof fn law_which_device_is_meant(listed: Seq<Option<String>>, name: Seq<char>, i: int)
    ensures
        named(listed, name, i) ==> 0 <= i < listed.len() && listed[i] is Some,
        0 <= i < listed.len() && listed[i] is None ==> !named(listed, name, i),
        0 <= i < listed.len() && listed[i] is Some ==> (named(listed, name, i) <==> listed[i]->0@
            == name),
{
}

} // verus!
