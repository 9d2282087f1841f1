//! Whether the game runs with the mods that recording needs.

use vstd::prelude::*;

use crate::text::str_eq;

verus! {

pub open spec fn has_mod(mods: Seq<String>, name: Seq<char>) -> bool {
    exists|i: int| 0 <= i < mods.len() && (#[trigger] mods[i])@ == name
}

pub open spec fn missing_line(present: bool, name: Seq<char>) -> Seq<char> {
    if present {
        Seq::empty()
    } else {
        "Mod `"@ + name + "` is not installed. \n"@
    }
}

/// One line for each required mod that is not installed.
pub open spec fn missing_message(mods: Seq<String>) -> Seq<char> {
    missing_line(has_mod(mods, "CelesteTAS"@), "CelesteTAS"@) + missing_line(
        has_mod(mods, "ConsistencyTracker"@),
        "ConsistencyTracker"@,
    )
}

fn contains_mod(mods: &Vec<String>, name: &str) -> (r: bool)
    ensures
        r == has_mod(mods@, name@),
{
    for i in 0..mods.len()
        invariant
            forall|j: int| 0 <= j < i ==> (#[trigger] mods@[j])@ != name@,
    {
        if str_eq(mods[i].as_str(), name) {
            return true;
        }
    }
    false
}

fn push_missing(msg: &mut String, mods: &Vec<String>, name: &str)
    ensures
        final(msg)@ == old(msg)@ + missing_line(has_mod(mods@, name@), name@),
{
    if !contains_mod(mods, name) {
        msg.append("Mod `");
        msg.append(name);
        msg.append("` is not installed. \n");
        assert(final(msg)@ =~= old(msg)@ + missing_line(has_mod(mods@, name@), name@));
    } else {
        assert(old(msg)@ + missing_line(has_mod(mods@, name@), name@) =~= old(msg)@);
    }
}

/// Given the installed mods, or `None` where the game could not be asked:
/// whether it answered, the lines for missing required mods (`None` where
/// none is missing), and whether the TAS recorder mod is there (taken as
/// there when the game did not answer).
pub fn check_required_mods(mods: &Option<Vec<String>>) -> (r: (bool, Option<String>, bool))
    ensures
        mods is None ==> r.0 == false && r.1 is None && r.2 == true,
        mods matches Some(m) ==> {
            &&& r.0 == true
            &&& r.2 == has_mod(m@, "TASRecorder"@)
            &&& (missing_message(m@).len() == 0 <==> r.1 is None)
            &&& (r.1 matches Some(t) ==> t@ == missing_message(m@))
        },
{
    match mods {
        None => (false, None, true),
        Some(m) => {
            let mut msg = String::new();
            push_missing(&mut msg, m, "CelesteTAS");
            push_missing(&mut msg, m, "ConsistencyTracker");
            proof {
                assert(msg@ =~= missing_message(m@));
            }
            let recorder = contains_mod(m, "TASRecorder");
            if msg.as_str().is_empty() {
                (true, None, recorder)
            } else {
                (true, Some(msg), recorder)
            }
        },
    }
}

} // verus!
