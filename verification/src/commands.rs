//! What the user asks for, in words.

use vstd::prelude::*;
use crate::bandplan::{Profile, Role};
use crate::framing::PhyMode;
use crate::session::ModePolicy;
use crate::text;

verus! {

/// The names of the profiles.
pub open spec fn profile_named(name: Seq<char>) -> Option<Profile> {
    if name == "audible"@ {
        Some(Profile::Audible)
    } else if name == "ultrasonic"@ {
        Some(Profile::Ultrasonic)
    } else {
        None
    }
}

/// The names of the roles.
pub open spec fn role_named(name: Seq<char>) -> Option<Role> {
    if name == "initiator"@ || name == "a"@ {
        Some(Role::Initiator)
    } else if name == "responder"@ || name == "b"@ {
        Some(Role::Responder)
    } else {
        None
    }
}

/// The names of the modes.
pub open spec fn mode_named(name: Seq<char>) -> Option<PhyMode> {
    if name == "css"@ {
        Some(PhyMode::Css)
    } else if name == "mfsk"@ {
        Some(PhyMode::Mfsk)
    } else if name == "ofdm"@ || name == "ofdm-qpsk"@ || name == "qpsk"@ {
        Some(PhyMode::OfdmQpsk)
    } else if name == "ofdm-qam"@ || name == "ofdm-16qam"@ || name == "16qam"@ || name == "qam"@ {
        Some(PhyMode::Ofdm16Qam)
    } else {
        None
    }
}

/// The two texts are the same.
fn same(a: &String, b: &str) -> (r: bool)
    ensures
        r <==> a@ == b@,
{
    let other: String = b.to_owned();
    *a == other
}

/// The complaint about a name that is not known.
fn unknown(what: &str, name: &String) -> (r: String)
    ensures
        r@ == what@ + name@,
{
    let text: String = what.to_owned();
    text.concat(name.as_str())
}

/// The profile with a name, in letters of either case.
pub fn parse_profile(s: &str) -> (r: Result<Profile, String>)
    ensures
        match r {
            Ok(profile) => profile_named(text::small_letters(s@)) == Some(profile),
            Err(e) => profile_named(text::small_letters(s@)) is None && e@
                == "Неизвестный профиль: "@ + text::small_letters(s@),
        },
{
    let name: String = text::lowercase(s);
    if same(&name, "audible") {
        Ok(Profile::Audible)
    } else if same(&name, "ultrasonic") {
        Ok(Profile::Ultrasonic)
    } else {
        Err(unknown("Неизвестный профиль: ", &name))
    }
}

/// The role with a name, in letters of either case.
pub fn parse_role(s: &str) -> (r: Result<Role, String>)
    ensures
        match r {
            Ok(role) => role_named(text::small_letters(s@)) == Some(role),
            Err(e) => role_named(text::small_letters(s@)) is None && e@ == "Неизвестная роль: "@
                + text::small_letters(s@),
        },
{
    let name: String = text::lowercase(s);
    if same(&name, "initiator") || same(&name, "a") {
        Ok(Role::Initiator)
    } else if same(&name, "responder") || same(&name, "b") {
        Ok(Role::Responder)
    } else {
        Err(unknown("Неизвестная роль: ", &name))
    }
}

/// The mode with a name in small letters.
fn find_mode(name: &String) -> (r: Option<PhyMode>)
    ensures
        r == mode_named(name@),
{
    if same(name, "css") {
        Some(PhyMode::Css)
    } else if same(name, "mfsk") {
        Some(PhyMode::Mfsk)
    } else if same(name, "ofdm") || same(name, "ofdm-qpsk") || same(name, "qpsk") {
        Some(PhyMode::OfdmQpsk)
    } else if same(name, "ofdm-qam") || same(name, "ofdm-16qam") || same(name, "16qam") || same(
        name,
        "qam",
    ) {
        Some(PhyMode::Ofdm16Qam)
    } else {
        None
    }
}

/// How the mode is chosen: `auto`, or a mode by its name, in letters of either case.
pub fn parse_mode(s: &str) -> (r: Result<ModePolicy, String>)
    ensures
        ({
            let name = text::small_letters(s@);
            match r {
                Ok(ModePolicy::Auto) => name == "auto"@,
                Ok(ModePolicy::Force(mode)) => name != "auto"@ && mode_named(name) == Some(mode),
                Err(e) => name != "auto"@ && mode_named(name) is None && e@
                    == "Неизвестный режим: "@ + name,
            }
        }),
{
    let name: String = text::lowercase(s);
    if same(&name, "auto") {
        return Ok(ModePolicy::Auto);
    }
    match find_mode(&name) {
        Some(mode) => Ok(ModePolicy::Force(mode)),
        None => Err(unknown("Неизвестный режим: ", &name)),
    }
}

/// The mode that a device tests itself in, by its name, in letters of either case.
pub fn parse_test_mode(s: &str) -> (r: Result<PhyMode, String>)
    ensures
        match r {
            Ok(mode) => mode_named(text::small_letters(s@)) == Some(mode),
            Err(e) => mode_named(text::small_letters(s@)) is None && e@ == "Неизвестный режим: "@
                + text::small_letters(s@),
        },
{
    let name: String = text::lowercase(s);
    match find_mode(&name) {
        Some(mode) => Ok(mode),
        None => Err(unknown("Неизвестный режим: ", &name)),
    }
}

/// A session may be started if none runs.
pub fn may_start(running: bool) -> (r: Result<(), String>)
    ensures
        match r {
            Ok(_) => !running,
            Err(e) => running && e@ == "Сессия уже запущена"@,
        },
{
    if running {
        Err("Сессия уже запущена".to_owned())
    } else {
        Ok(())
    }
}

/// Messages and modes go to a session that runs.
pub fn must_run(running: bool) -> (r: Result<(), String>)
    ensures
        match r {
            Ok(_) => running,
            Err(e) => !running && e@ == "Сессия не запущена"@,
        },
{
    if running {
        Ok(())
    } else {
        Err("Сессия не запущена".to_owned())
    }
}

/// Letters of either case mean the same: names that differ in nothing else are names of the same
/// profile, role and mode, and a name in small letters stays as it is.
pub proof fn law_case_does_not_matter(a: Seq<char>, b: Seq<char>)
    requires
        text::small_letters(a) == text::small_letters(b),
    ensures
        profile_named(text::small_letters(a)) == profile_named(text::small_letters(b)),
        role_named(text::small_letters(a)) == role_named(text::small_letters(b)),
        mode_named(text::small_letters(a)) == mode_named(text::small_letters(b)),
        text::small_letters(text::small_letters(a)) == text::small_letters(a),
{
    let s = text::small_letters(a);
    assert forall|i: int| 0 <= i < s.len() implies text::small(#[trigger] s[i]) == s[i] by {
        let c = a[i];
        assert(s[i] == text::small(c));
    }
    assert(text::small_letters(s) =~= s);
}

/// A profile or a role is meant exactly by its own names, and any other name means none.
pub proof fn law_names_of_profiles_and_roles(name: Seq<char>)
    ensures
        profile_named(name) == Some(Profile::Audible) <==> name == "audible"@,
        profile_named(name) == Some(Profile::Ultrasonic) <==> name == "ultrasonic"@,
        role_named(name) == Some(Role::Initiator) <==> name == "initiator"@ || name == "a"@,
        role_named(name) == Some(Role::Responder) <==> name == "responder"@ || name == "b"@,
{
    reveal_strlit("audible");
    reveal_strlit("ultrasonic");
    reveal_strlit("initiator");
    reveal_strlit("responder");
    reveal_strlit("a");
    reveal_strlit("b");
    assert("audible"@.len() == 7 && "ultrasonic"@.len() == 10);
    assert("initiator"@[0] == 'i' && "responder"@[0] == 'r' && "a"@[0] == 'a' && "b"@[0] == 'b');
}

/// A mode is meant exactly by its own names, and any other name means none.
pub proof fn law_names_of_modes(name: Seq<char>)
    ensures
        mode_named(name) == Some(PhyMode::Css) <==> name == "css"@,
        mode_named(name) == Some(PhyMode::Mfsk) <==> name == "mfsk"@,
        mode_named(name) == Some(PhyMode::OfdmQpsk) <==> name == "ofdm"@ || name == "ofdm-qpsk"@
            || name == "qpsk"@,
        mode_named(name) == Some(PhyMode::Ofdm16Qam) <==> name == "ofdm-qam"@ || name
            == "ofdm-16qam"@ || name == "16qam"@ || name == "qam"@,
{
    reveal_strlit("css");
    reveal_strlit("mfsk");
    reveal_strlit("ofdm");
    reveal_strlit("ofdm-qpsk");
    reveal_strlit("qpsk");
    reveal_strlit("ofdm-qam");
    reveal_strlit("ofdm-16qam");
    reveal_strlit("16qam");
    reveal_strlit("qam");
    assert("css"@.len() == 3 && "mfsk"@.len() == 4 && "ofdm"@.len() == 4 && "ofdm-qpsk"@.len() == 9
        && "qpsk"@.len() == 4 && "ofdm-qam"@.len() == 8 && "ofdm-16qam"@.len() == 10
        && "16qam"@.len() == 5 && "qam"@.len() == 3);
    assert("css"@[0] == 'c' && "qam"@[0] == 'q' && "mfsk"@[0] == 'm' && "ofdm"@[0] == 'o'
        && "qpsk"@[0] == 'q');
}

} // verus!
