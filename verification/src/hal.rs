//! Error taxonomy and pin interface shared by the device and the host.

use vstd::prelude::*;

verus! {

/// Identity of a physical pin: the peripheral bank as an ASCII letter and
/// the pin number within the bank.
#[derive(Debug, Clone, Copy, PartialEq, Eq, Structural)]
pub struct GpioPinInformation {
    pub index_major: u8,
    pub index_minor: u8,
}

/// The failure kinds that travel end-to-end over the wire, one discriminant
/// byte each (plus one body byte for `Other`).
#[derive(Debug, Copy, Clone, PartialEq, Eq, Structural)]
pub enum HalErrorKind {
    /// This command is not supported on this device.
    UnsupportedCommand,
    /// Index out of range or malformed body.
    InvalidParameter,
    /// The transport itself failed.
    ProtocolError,
    /// Pin operation incompatible with the pin's current logical mode,
    /// or an unsupported mode value.
    InvalidGpioMode,
    /// Opaque escape for target-defined codes.
    Other(u8),
}

/// An error with its wire kind and an optional static message.
/// Only the kind crosses the wire.
#[derive(Debug, Copy, Clone)]
pub struct HalError {
    kind: HalErrorKind,
    message: Option<&'static str>,
}

/// The error value carrying `kind` and no message, for use in contracts.
pub closed spec fn error_of_kind(kind: HalErrorKind) -> HalError {
    HalError { kind, message: None }
}

impl HalError {
    /// The wire-visible failure kind, for use in contracts.
    pub closed spec fn spec_kind(&self) -> HalErrorKind {
        self.kind
    }

    pub fn new(kind: HalErrorKind, message: &'static str) -> (r: Self)
        ensures
            r.kind() == kind,
    {
        HalError { kind, message: Some(message) }
    }

    /// The wire-visible failure kind.
    #[verifier::when_used_as_spec(spec_kind)]
    pub fn kind(&self) -> (k: HalErrorKind)
        ensures
            k == self.spec_kind(),
    {
        self.kind
    }

    /// An error of this kind with no message.
    pub fn from_kind(kind: HalErrorKind) -> (r: Self)
        ensures
            r == error_of_kind(kind),
            r.kind() == kind,
    {
        HalError { kind, message: None }
    }
}

pub type HalResult<T> = Result<T, HalError>;

} // verus!
