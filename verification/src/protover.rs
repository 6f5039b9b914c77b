//! What relays support that are too old to say so themselves.

use vstd::prelude::*;

verus! {

/// The first version of Tor that advertises its protocols. Older relays are
/// given a list that goes by their version.
pub const FIRST_TOR_VERSION_TO_ADVERTISE_PROTOCOLS: &'static str = "0.2.9.3-alpha";

/// The versions of Tor, newest first, that the version of a relay is held
/// against to find out what it supports: the first of them that the relay
/// is as new as decides.
pub fn old_tor_versions() -> (r: [&'static str; 4])
    ensures
        r[0]@ == "0.2.9.3-alpha"@,
        r[1]@ == "0.2.9.1-alpha"@,
        r[2]@ == "0.2.7.5"@,
        r[3]@ == "0.2.4.19"@,
{
    ["0.2.9.3-alpha", "0.2.9.1-alpha", "0.2.7.5", "0.2.4.19"]
}

/// What a relay supports that does not advertise its protocols, given
/// which of `old_tor_versions` it is as new as: nothing we know of if it is
/// new enough to advertise them itself; else the list of the newest of the
/// other versions that it is as new as; nothing if it is older than all of
/// them.
pub open spec fn old_tor_protocols(
    advertises: bool,
    as_new_as_0_2_9_1_alpha: bool,
    as_new_as_0_2_7_5: bool,
    as_new_as_0_2_4_19: bool,
) -> Seq<char> {
    if advertises {
        ""@
    } else if as_new_as_0_2_9_1_alpha {
        "Cons=1-2 Desc=1-2 DirCache=1 HSDir=1 HSIntro=3 HSRend=1-2 Link=1-4 LinkAuth=1 Microdesc=1-2 Relay=1-2"@
    } else if as_new_as_0_2_7_5 {
        "Cons=1-2 Desc=1-2 DirCache=1 HSDir=1 HSIntro=3 HSRend=1 Link=1-4 LinkAuth=1 Microdesc=1-2 Relay=1-2"@
    } else if as_new_as_0_2_4_19 {
        "Cons=1 Desc=1 DirCache=1 HSDir=1 HSIntro=3 HSRend=1 Link=1-4 LinkAuth=1 Microdesc=1 Relay=1-2"@
    } else {
        ""@
    }
}

/// What a relay supports that is too old to advertise its protocols. The
/// arguments say whether the version of the relay is as new as each of
/// `old_tor_versions`, in that order.
pub fn compute_for_old_tor(
    advertises: bool,
    as_new_as_0_2_9_1_alpha: bool,
    as_new_as_0_2_7_5: bool,
    as_new_as_0_2_4_19: bool,
) -> (r: &'static str)
    ensures
        r@ == old_tor_protocols(
            advertises,
            as_new_as_0_2_9_1_alpha,
            as_new_as_0_2_7_5,
            as_new_as_0_2_4_19,
        ),
{
    if advertises {
        return "";
    }
    if as_new_as_0_2_9_1_alpha {
        return "Cons=1-2 Desc=1-2 DirCache=1 HSDir=1 HSIntro=3 HSRend=1-2 Link=1-4 LinkAuth=1 Microdesc=1-2 Relay=1-2";
    }
    if as_new_as_0_2_7_5 {
        return "Cons=1-2 Desc=1-2 DirCache=1 HSDir=1 HSIntro=3 HSRend=1 Link=1-4 LinkAuth=1 Microdesc=1-2 Relay=1-2";
    }
    if as_new_as_0_2_4_19 {
        return "Cons=1 Desc=1 DirCache=1 HSDir=1 HSIntro=3 HSRend=1 Link=1-4 LinkAuth=1 Microdesc=1 Relay=1-2";
    }
    ""
}

} // verus!
