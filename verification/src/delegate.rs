//! Choosing a linker of the system.
//!
//! Whether a program can be run is found out by the caller: [`linker_probe`]
//! lists what to try, and [`detect_linker`] takes the first that worked.
use vstd::prelude::*;
use vstd::string::*;
use crate::platform::TargetPlatform;

verus! {

/// The programs to try, with an argument that makes them end at once, by preference.
pub open spec fn probes(platform: TargetPlatform) -> Seq<(Seq<char>, Seq<char>)> {
    match platform {
        TargetPlatform::Linux => seq![
            ("mold"@, "--version"@),
            ("ld.lld"@, "-v"@),
            ("lld"@, "-v"@),
            ("ld"@, "--version"@),
            ("ld"@, "-v"@),
        ],
        TargetPlatform::MacOS => seq![("ld64"@, "-version"@), ("ld"@, "-v"@), ("ld"@, "-version"@)],
        TargetPlatform::Windows => seq![("link"@, "/?"@)],
    }
}

/// The linker that every system of a platform should have.
pub open spec fn default_linker(platform: TargetPlatform) -> Seq<char> {
    match platform {
        TargetPlatform::Windows => "link"@,
        _ => "ld"@,
    }
}

/// The linker to use where the probe number `found` is the first that worked.
pub open spec fn chosen_linker(platform: TargetPlatform, found: Option<usize>) -> Seq<char> {
    match found {
        Some(n) if n < probes(platform).len() => probes(platform)[n as int].0,
        _ => default_linker(platform),
    }
}

/// The probe number `n`.
pub fn linker_probe(platform: TargetPlatform, n: usize) -> (r: Option<(&'static str, &'static str)>)
    ensures
        match r {
            Some((cmd, arg)) => n < probes(platform).len() && probes(platform)[n as int] == (
                cmd@,
                arg@,
            ),
            None => n >= probes(platform).len(),
        },
{
    match platform {
        TargetPlatform::Linux => match n {
            0 => Some(("mold", "--version")),
            1 => Some(("ld.lld", "-v")),
            2 => Some(("lld", "-v")),
            3 => Some(("ld", "--version")),
            4 => Some(("ld", "-v")),
            _ => None,
        },
        TargetPlatform::MacOS => match n {
            0 => Some(("ld64", "-version")),
            1 => Some(("ld", "-v")),
            2 => Some(("ld", "-version")),
            _ => None,
        },
        TargetPlatform::Windows => match n {
            0 => Some(("link", "/?")),
            _ => None,
        },
    }
}

/// The linker to use, where the probe number `found` is the first that worked, or none did.
pub fn detect_linker(platform: TargetPlatform, found: Option<usize>) -> (r: &'static str)
    ensures
        r@ == chosen_linker(platform, found),
{
    if let Some(n) = found {
        if let Some((cmd, _)) = linker_probe(platform, n) {
            return cmd;
        }
    }
    match platform {
        TargetPlatform::Windows => "link",
        _ => "ld",
    }
}

/// The linker to use is always one that there is a probe for: the one whose probe worked, or else
/// the one that is tried last.
pub proof fn law_linker_is_a_probed_one(platform: TargetPlatform, found: Option<usize>)
    ensures
        ({
            let n = probes(platform).len();
            let chosen = chosen_linker(platform, found);
            &&& found is Some && found->0 < n ==> chosen == (probes(platform)[found->0 as int]).0
            &&& found is None || found->0 >= n ==> n > 0 && chosen == (probes(platform)[n - 1]).0
        }),
{
}

} // verus!
