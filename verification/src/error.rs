//! The ways in which a command, or the work on one package, fails.

use vstd::prelude::*;

verus! {

/// What went wrong. `PluginNotInstalled`, `SkipLocal` and `Vcs` concern one
/// package of a batch and never stop the batch; the others end the command.
#[derive(Debug, Clone, Copy, PartialEq, Eq, Structural)]
pub enum Error {
    /// The store is not well-formed, or a record lacks a required field.
    Format,
    /// The package has no install directory.
    PluginNotInstalled,
    /// The package is managed locally and is left alone.
    SkipLocal,
    /// The version-control client reported a failure.
    Vcs,
    /// A file or a directory could not be removed or written.
    Filesystem,
    /// The number of workers asked for is not positive.
    Threads,
    /// The registry could not be turned into text.
    Emit,
}

impl Error {
    /// Whether the error concerns one package only, so that the batch goes on.
    pub open spec fn per_item(self) -> bool {
        self == Error::PluginNotInstalled || self == Error::SkipLocal || self == Error::Vcs
    }

    /// Whether the error concerns one package only.
    pub fn is_per_item(&self) -> (r: bool)
        ensures
            r == self.per_item(),
    {
        match self {
            Error::PluginNotInstalled | Error::SkipLocal | Error::Vcs => true,
            _ => false,
        }
    }

    /// The text shown to the user for this error.
    pub open spec fn text(self) -> Seq<char> {
        match self {
            Error::Format => "Invalid packfile format"@,
            Error::PluginNotInstalled => "Plugin not installed"@,
            Error::SkipLocal => "Local plugin. Skipping"@,
            Error::Vcs => "Version control failure"@,
            Error::Filesystem => "Filesystem failure"@,
            Error::Threads => "Threads should be greater than 0"@,
            Error::Emit => "Fail to encode the packfile"@,
        }
    }

    /// The text shown to the user for this error.
    pub fn message(&self) -> (r: String)
        ensures
            r@ == self.text(),
    {
        match self {
            Error::Format => "Invalid packfile format".to_owned(),
            Error::PluginNotInstalled => "Plugin not installed".to_owned(),
            Error::SkipLocal => "Local plugin. Skipping".to_owned(),
            Error::Vcs => "Version control failure".to_owned(),
            Error::Filesystem => "Filesystem failure".to_owned(),
            Error::Threads => "Threads should be greater than 0".to_owned(),
            Error::Emit => "Fail to encode the packfile".to_owned(),
        }
    }
}

} // verus!
