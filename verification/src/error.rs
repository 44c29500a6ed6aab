//! Errors surfaced to the host that embeds the executive.

use vstd::prelude::*;
use vstd::string::StringExecFns;

verus! {

/// What can go wrong while the host sets a guest up or runs it. The
/// scheduler itself reports only resource exhaustion this way; everything
/// else on its paths is an invariant violation and therefore a bug.
#[derive(Debug, Clone)]
pub enum Error {
    /// A bug: an internal invariant did not hold.
    InternalError,
    /// The system is out of memory, or the scheduler's stack address space
    /// or id space is exhausted.
    NotEnoughMemory,
    /// The named guest image was not found or is malformed.
    InvalidFile(String),
    /// The virtualization layer stopped the guest for a reason the host does
    /// not handle; carried as the raw exit code.
    UnknownExitReason(u64),
    /// The virtualization layer could not be initialized.
    KVMInitFailed,
    /// The virtualization layer refused to create a virtual machine.
    KVMUnableToCreateVM,
    /// The CPU frequency could not be read from the system.
    MissingFrequency,
    /// The guest memory size could not be parsed from the environment.
    ParseMemory,
}

impl Error {
    /// The text shown to a user for this error.
    pub open spec fn spec_message(self) -> Seq<char> {
        match self {
            Error::InternalError => "An internal error has occurred, please report."@,
            Error::NotEnoughMemory => "The host system has not enough memory, please check your memory usage."@,
            Error::InvalidFile(file) => "The file "@ + file@ + " was not found or is invalid."@,
            Error::UnknownExitReason(_) => "Unknown exit reason."@,
            Error::KVMInitFailed => "Unable to initialize KVM"@,
            Error::KVMUnableToCreateVM => "Unable to create VM"@,
            Error::MissingFrequency => "Couldn't get the CPU frequency from your system. (is /proc/cpuinfo missing?)"@,
            Error::ParseMemory => "Couldn't parse the guest memory size from the environment"@,
        }
    }

    /// Renders the error as its user-facing text.
    pub fn message(&self) -> (r: String)
        ensures
            r@ == self.spec_message(),
    {
        match self {
            Error::InternalError => String::from_str("An internal error has occurred, please report."),
            Error::NotEnoughMemory => String::from_str("The host system has not enough memory, please check your memory usage."),
            Error::InvalidFile(file) => String::from_str("The file ").concat(file.as_str()).concat(
                " was not found or is invalid.",
            ),
            Error::UnknownExitReason(_) => String::from_str("Unknown exit reason."),
            Error::KVMInitFailed => String::from_str("Unable to initialize KVM"),
            Error::KVMUnableToCreateVM => String::from_str("Unable to create VM"),
            Error::MissingFrequency => String::from_str("Couldn't get the CPU frequency from your system. (is /proc/cpuinfo missing?)"),
            Error::ParseMemory => String::from_str("Couldn't parse the guest memory size from the environment"),
        }
    }
}

} // verus!
