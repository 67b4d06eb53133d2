//! The operating systems that can be linked for.
//!
//! Linux links natively and emits ELF; macOS and Windows may hand over to the
//! system's linker.
use vstd::prelude::*;
use crate::text::str_eq;

verus! {

/// A target platform.
#[derive(Debug, Clone, Copy, PartialEq, Eq, Structural)]
pub enum TargetPlatform {
    Linux,
    MacOS,
    Windows,
}

/// The platform of an operating system's name; Linux where it is not known.
pub open spec fn platform_of(os: Seq<char>) -> TargetPlatform {
    if os == "macos"@ {
        TargetPlatform::MacOS
    } else if os == "windows"@ {
        TargetPlatform::Windows
    } else {
        TargetPlatform::Linux
    }
}

/// The name of the object format that a platform's executables have.
pub open spec fn format_name(platform: TargetPlatform) -> Seq<char> {
    match platform {
        TargetPlatform::Linux => "ELF"@,
        TargetPlatform::MacOS => "Mach-O"@,
        TargetPlatform::Windows => "PE"@,
    }
}

impl TargetPlatform {
    /// The platform of the operating system named `os`, as `std::env::consts::OS` names it.
    pub fn current(os: &str) -> (r: Self)
        ensures
            r == platform_of(os@),
    {
        if str_eq(os, "macos") {
            TargetPlatform::MacOS
        } else if str_eq(os, "windows") {
            TargetPlatform::Windows
        } else {
            TargetPlatform::Linux
        }
    }

    /// Whether executables for this platform are linked without another linker.
    pub fn supports_native_linking(self) -> (r: bool)
        ensures
            r == (self == TargetPlatform::Linux),
    {
        matches!(self, TargetPlatform::Linux)
    }

    /// The name of the executable format.
    pub fn output_format(self) -> (r: &'static str)
        ensures
            r@ == format_name(self),
    {
        match self {
            TargetPlatform::Linux => "ELF",
            TargetPlatform::MacOS => "Mach-O",
            TargetPlatform::Windows => "PE",
        }
    }
}

} // verus!
