//! The closed set of backend package managers.

use vstd::prelude::*;

verus! {

/// A backend package manager that packages are installed through.
#[derive(PartialEq, Eq, Structural, Clone, Copy, Debug, Hash)]
pub enum PackageSource {
    /// Arch Linux through the Paru helper.
    ArchParu,
    /// Arch Linux through Pacman.
    ArchPacman,
}

impl Default for PackageSource {
    fn default() -> (r: Self)
        ensures
            r == PackageSource::ArchPacman,
    {
        PackageSource::ArchPacman
    }
}

impl PackageSource {
    /// Human readable name of the backend, for prompts and messages.
    pub fn display_name(&self) -> (r: &'static str)
        ensures
            *self == PackageSource::ArchParu ==> r@ == "Arch-Linux using Paru"@,
            *self == PackageSource::ArchPacman ==> r@ == "Arch-Linux using Pacman"@,
    {
        match self {
            PackageSource::ArchParu => "Arch-Linux using Paru",
            PackageSource::ArchPacman => "Arch-Linux using Pacman",
        }
    }

    /// Name of the executable that this backend runs.
    pub fn command_name(&self) -> (r: &'static str)
        ensures
            r@ == self.spec_command_name(),
    {
        proof {
            reveal_strlit("paru");
            reveal_strlit("pacman");
        }
        match self {
            PackageSource::ArchParu => "paru",
            PackageSource::ArchPacman => "pacman",
        }
    }

    pub open spec fn spec_command_name(&self) -> Seq<char> {
        match self {
            PackageSource::ArchParu => "paru"@,
            PackageSource::ArchPacman => "pacman"@,
        }
    }
}

} // verus!
