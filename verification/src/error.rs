//! Failures of a resolution.

use vstd::prelude::*;

verus! {

/// Why a buffer was rejected as malformed.
#[derive(Debug, Clone, Copy, PartialEq, Eq)]
pub enum Malformation {
    /// The buffer ended before the value that was being read.
    Truncated,
    /// An answer's owner name did not start with the compression marker.
    NamePointerRequired,
    /// An address record did not hold exactly four bytes.
    AddressLength,
}

/// The ways in which a resolution can fail.
#[derive(Debug, Clone, Copy, PartialEq, Eq)]
pub enum DnsError {
    /// The socket could not be set up, written to or read from.
    Transport,
    /// A buffer did not have the expected layout.
    Malformed(Malformation),
    /// A response carried another id than the outstanding query.
    IdMismatch,
    /// A pointer record named no share of this application.
    Unverified,
}

impl Malformation {
    /// The text that `describe` returns.
    pub open spec fn text(self) -> Seq<char> {
        match self {
            Malformation::Truncated => "buffer too short"@,
            Malformation::NamePointerRequired => "name pointer required"@,
            Malformation::AddressLength => "address must be four bytes"@,
        }
    }

    /// A short text for messages.
    pub fn describe(&self) -> (text: &'static str)
        ensures
            text@ == self.text(),
    {
        match self {
            Malformation::Truncated => "buffer too short",
            Malformation::NamePointerRequired => "name pointer required",
            Malformation::AddressLength => "address must be four bytes",
        }
    }
}

impl DnsError {
    /// The text that `describe` returns.
    pub open spec fn text(self) -> Seq<char> {
        match self {
            DnsError::Transport => "transport failure"@,
            DnsError::Malformed(why) => why.text(),
            DnsError::IdMismatch => "response for another query"@,
            DnsError::Unverified => "no share announced"@,
        }
    }

    /// A short text for messages.
    pub fn describe(&self) -> (text: &'static str)
        ensures
            text@ == self.text(),
    {
        match self {
            DnsError::Transport => "transport failure",
            DnsError::Malformed(why) => why.describe(),
            DnsError::IdMismatch => "response for another query",
            DnsError::Unverified => "no share announced",
        }
    }
}

} // verus!
