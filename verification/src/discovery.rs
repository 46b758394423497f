//! Finding devices nearby by sound alone: in rounds, each device plays its beacon at a time of its
//! own and listens for the others.

use vstd::prelude::*;
use crate::acoustic_beacon;
use crate::text;

verus! {

pub const ROUNDS: u32 = 5;

pub const ROUND_MS: u64 = 4000;

/// How long the noise is measured before a round.
pub const PRE_ROUND_NOISE_MS: u64 = 300;

/// The latest time at which a beacon may begin, so that it ends within the round.
pub const MAX_OFFSET_MS: u64 = 1675;

/// The nickname that a device takes part with, without blanks at its ends. One must be given.
pub fn entered_nickname(nickname: &str) -> (r: Result<String, String>)
    ensures
        match r {
            Ok(n) => n@ == text::trimmed_of(nickname@) && n@.len() > 0,
            Err(e) => text::trimmed_of(nickname@).len() == 0 && e@ == "Введите никнейм устройства"@,
        },
{
    let n: String = text::trimmed(nickname);
    if n.as_str().unicode_len() == 0 {
        Err("Введите никнейм устройства".to_owned())
    } else {
        Ok(n)
    }
}

/// The hash of Fowler, Noll and Vo, in the variant called 1a, in 64 bits.
pub open spec fn fnv(bytes: Seq<u8>) -> u64
    decreases bytes.len(),
{
    if bytes.len() == 0 {
        0xcbf29ce484222325
    } else {
        (fnv(bytes.drop_last()) ^ bytes.last() as u64).wrapping_mul(0x100000001b3)
    }
}

/// The hash of bytes.
pub fn hash_bytes(bytes: &[u8]) -> (r: u64)
    ensures
        r == fnv(bytes@),
{
    let mut hash: u64 = 0xcbf29ce484222325;
    let mut i: usize = 0;
    assert(bytes@.take(0) =~= Seq::empty());
    while i < bytes.len()
        invariant
            i <= bytes@.len(),
            hash == fnv(bytes@.take(i as int)),
        decreases bytes@.len() - i,
    {
        assert(bytes@.take(i + 1).drop_last() =~= bytes@.take(i as int));
        hash = hash ^ bytes[i] as u64;
        hash = hash.wrapping_mul(0x100000001b3);
        i += 1;
    }
    assert(bytes@.take(i as int) =~= bytes@);
    hash
}

/// The hash of a text.
pub fn hash_str(s: &str) -> (r: u64)
    ensures
        r == fnv(vstd::utf8::encode_utf8(s@)),
{
    hash_bytes(s.as_bytes())
}

/// The digits of a number.
pub open spec fn decimal(n: nat) -> Seq<u8>
    decreases n,
{
    if n < 10 {
        seq![(48 + n) as u8]
    } else {
        decimal(n / 10).push((48 + n % 10) as u8)
    }
}

/// Appends the digits of a number.
fn push_decimal(out: &mut Vec<u8>, n: u32)
    ensures
        final(out)@ == old(out)@ + decimal(n as nat),
    decreases n,
{
    if n >= 10 {
        push_decimal(out, n / 10);
    }
    out.push((48 + n % 10) as u8);
    assert(out@ =~= old(out)@ + decimal(n as nat));
}

/// What is hashed for a device and a round: the nickname, a hyphen and the number of the round.
pub open spec fn round_key(nickname: Seq<char>, round: u32) -> Seq<u8> {
    vstd::utf8::encode_utf8(nickname).push(45) + decimal(round as nat)
}

/// When a device plays its beacon in a round, in milliseconds from its beginning. It depends on
/// nothing but the nickname and the round.
pub fn beacon_offset_ms(nickname: &str, round: u32) -> (r: u64)
    ensures
        r == fnv(round_key(nickname@, round)) % 1675,
{
    let mut key: Vec<u8> = vstd::slice::slice_to_vec(nickname.as_bytes());
    assert(key@ =~= vstd::utf8::encode_utf8(nickname@));
    key.push(45);
    push_decimal(&mut key, round);
    hash_bytes(&key) % MAX_OFFSET_MS
}

/// Every beacon ends within its round, whatever the nickname, with the time in which the noise is
/// measured to spare.
pub proof fn law_beacon_ends_in_round(nickname: Seq<char>, round: u32)
    ensures
        fnv(round_key(nickname, round)) % 1675 + 2025 + PRE_ROUND_NOISE_MS <= ROUND_MS,
{
}

/// A beacon in a recording of silence.
pub open spec fn is_placed<S>(r: Seq<S>, beacon: Seq<S>, lead: nat, total: nat, silence: S) -> bool {
    &&& r.len() == total
    &&& forall|i: int|
        0 <= i < total ==> #[trigger] r[i] == (if lead <= i < lead + beacon.len() {
            beacon[i - lead]
        } else {
            silence
        })
}

/// Puts a beacon into a recording of silence, after a lead, and cuts what does not fit.
pub fn place_beacon<S: Copy>(beacon: &[S], lead: usize, total: usize, silence: S) -> (r: Vec<S>)
    ensures
        is_placed(r@, beacon@, lead as nat, total as nat, silence),
{
    let mut out: Vec<S> = Vec::new();
    let mut i: usize = 0;
    while i < total
        invariant
            i <= total,
            is_placed(out@, beacon@, lead as nat, i as nat, silence),
        decreases total - i,
    {
        let ghost before = out@;
        if i >= lead && i - lead < beacon.len() {
            out.push(beacon[i - lead]);
        } else {
            out.push(silence);
        }
        assert forall|k: int| 0 <= k < i + 1 implies #[trigger] out@[k] == (if lead <= k < lead
            + beacon@.len() {
            beacon@[k - lead]
        } else {
            silence
        }) by {
            if k < i {
                assert(out@[k] == before[k]);
            }
        }
        i += 1;
    }
    out
}

/// The samples before the beacon, and of the whole round.
pub fn round_samples(offset_ms: u64, sample_rate: u32) -> (r: (usize, usize))
    requires
        offset_ms < MAX_OFFSET_MS,
        sample_rate * 4 <= usize::MAX,
    ensures
        r.0 == sample_rate * offset_ms / 1000,
        r.1 == sample_rate * 4,
{
    let rate: u64 = sample_rate as u64;
    proof {
        assert(rate * offset_ms <= rate * 1675) by (nonlinear_arith)
            requires
                offset_ms < 1675,
        ;
        assert(rate * offset_ms >= 0) by (nonlinear_arith)
            requires
                rate >= 0,
                offset_ms >= 0,
        ;
    }
    ((rate * offset_ms / 1000) as usize, (rate * ROUND_MS / 1000) as usize)
}

/// The nicknames that were read, without the device's own.
pub open spec fn are_others(indices: Seq<usize>, read: Seq<String>, nickname: Seq<char>) -> bool {
    &&& forall|k: int|
        0 <= k < indices.len() ==> (#[trigger] indices[k]) < read.len()
            && read[indices[k] as int]@ != acoustic_beacon::canonical(nickname)
    &&& forall|k: int, l: int|
        0 <= k < l < indices.len() ==> #[trigger] indices[k] < #[trigger] indices[l]
    &&& forall|i: int|
        0 <= i < read.len() && (#[trigger] read[i])@ != acoustic_beacon::canonical(nickname)
            ==> indices.contains(i as usize)
}

/// The indices of the nicknames that are not the device's own.
pub fn others(read: &Vec<String>, nickname: &str) -> (r: Vec<usize>)
    ensures
        are_others(r@, read@, nickname@),
{
    let own: String = acoustic_beacon::canonicalize(nickname);
    let mut out: Vec<usize> = Vec::new();
    let mut i: usize = 0;
    while i < read.len()
        invariant
            i <= read@.len(),
            read@.len() == read.len(),
            own@ == acoustic_beacon::canonical(nickname@),
            forall|k: int|
                0 <= k < out@.len() ==> (#[trigger] out@[k]) < i && read@[out@[k] as int]@ != own@,
            forall|k: int, l: int|
                0 <= k < l < out@.len() ==> #[trigger] out@[k] < #[trigger] out@[l],
            forall|j: int|
                0 <= j < i && (#[trigger] read@[j])@ != own@ ==> out@.contains(j as usize),
        decreases read@.len() - i,
    {
        let ghost before = out@;
        if read[i] != own {
            out.push(i);
            assert(out@[before.len() as int] == i);
        }
        proof {
            assert forall|j: int| 0 <= j < i + 1 && (#[trigger] read@[j])@ != own@ implies out@.contains(
                j as usize,
            ) by {
                if j < i {
                    assert(before.contains(j as usize));
                    let k = choose|k: int| 0 <= k < before.len() && before[k] == j as usize;
                    assert(out@[k] == j as usize);
                }
            }
        }
        i += 1;
    }
    out
}

/// The number that digits stand for.
pub open spec fn digits_value(digits: Seq<u8>) -> int
    decreases digits.len(),
{
    if digits.len() == 0 {
        0
    } else {
        10 * digits_value(digits.drop_last()) + (digits.last() - 48)
    }
}

/// The digits of a number stand for it, each is one of the ten, and the first is no zero but for
/// zero itself.
pub proof fn law_digits_stand_for_the_number(n: nat)
    ensures
        digits_value(decimal(n)) == n,
        decimal(n).len() > 0,
        n > 0 ==> decimal(n)[0] > 48,
        n == 0 ==> decimal(n) == seq![48u8],
        forall|i: int| 0 <= i < decimal(n).len() ==> 48 <= #[trigger] decimal(n)[i] <= 57,
    decreases n,
{
    let d = decimal(n);
    if n < 10 {
        assert(d.drop_last() =~= Seq::<u8>::empty());
        assert(digits_value(d.drop_last()) == 0);
    } else {
        law_digits_stand_for_the_number(n / 10);
        assert(d.drop_last() =~= decimal(n / 10));
        assert(d[0] == decimal(n / 10)[0]);
        assert forall|i: int| 0 <= i < d.len() implies 48 <= #[trigger] d[i] <= 57 by {
            if i < d.len() - 1 {
                assert(d[i] == decimal(n / 10)[i]);
            }
        }
    }
}

/// What is hashed is the nickname, a hyphen and the digits of the round, and nothing else.
pub proof fn law_what_is_hashed(nickname: Seq<char>, round: u32)
    ensures
        ({
            let key = round_key(nickname, round);
            let name = vstd::utf8::encode_utf8(nickname);
            &&& key.take(name.len() as int) == name
            &&& key[name.len() as int] == '-' as u8
            &&& digits_value(key.skip(name.len() as int + 1)) == round
        }),
{
    let key = round_key(nickname, round);
    let name = vstd::utf8::encode_utf8(nickname);
    law_digits_stand_for_the_number(round as nat);
    assert(key.take(name.len() as int) =~= name);
    assert(key.skip(name.len() as int + 1) =~= decimal(round as nat));
}

/// The hash starts from its basis and takes one byte after the other: each is mixed in without
/// carry, and the whole is multiplied by the prime of the hash, modulo two to the 64.
pub proof fn law_hash_step(bytes: Seq<u8>, b: u8)
    ensures
        fnv(Seq::empty()) == 14695981039346656037,
        fnv(bytes.push(b)) == ((fnv(bytes) ^ b as u64) * 1099511628211) % 0x1_0000_0000_0000_0000,
{
    assert(bytes.push(b).drop_last() =~= bytes);
}

/// The nicknames listed are those that were read and are not the device's own, in the order in which
/// they were read.
pub proof fn law_who_is_listed(indices: Seq<usize>, read: Seq<String>, nickname: Seq<char>, i: usize)
    requires
        are_others(indices, read, nickname),
    ensures
        indices.contains(i) <==> i < read.len() && read[i as int]@ != acoustic_beacon::canonical(
            nickname,
        ),
        forall|k: int, l: int|
            0 <= k < l < indices.len() ==> #[trigger] indices[k] < #[trigger] indices[l],
{
}

/// A beacon that is put behind a lead lies there sample by sample, as far as there is room, and
/// everything else is silence.
pub proof fn law_where_a_beacon_lies<S>(r: Seq<S>, beacon: Seq<S>, lead: nat, total: nat, silence: S, i: int)
    requires
        is_placed(r, beacon, lead, total, silence),
    ensures
        r.len() == total,
        0 <= i < beacon.len() && lead + i < total ==> r[lead + i] == beacon[i],
        0 <= i < total && (i < lead || i >= lead + beacon.len()) ==> r[i] == silence,
{
    if 0 <= i < beacon.len() && lead + i < total {
        assert(r[lead + i] == beacon[lead + i - lead]);
    }
}

/// A round is four seconds, of which there are five: the latest beacon, which is fifteen slots and
/// pauses long, ends with it, behind 300 milliseconds in which the noise is measured.
pub proof fn law_times_of_a_round()
    ensures
        ROUNDS == 5,
        ROUND_MS == 4000,
        PRE_ROUND_NOISE_MS == 300,
        PRE_ROUND_NOISE_MS + MAX_OFFSET_MS + 15 * (acoustic_beacon::SLOT_MS
            + acoustic_beacon::GUARD_MS) == ROUND_MS,
{
}

} // verus!
