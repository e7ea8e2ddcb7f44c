//! Sender-side error classification: how a transport fault is reported at
//! start-up. Configuration faults name a wrong socket setup, connection
//! faults a processor that cannot be reached, and everything else a plain
//! transport fault. The socket itself lives outside the library; its errors
//! reach this classification as plain kinds.

use vstd::prelude::*;

verus! {

/// The transport fault kinds the sender distinguishes.
#[derive(Clone, Copy, Debug, PartialEq, Eq, Structural)]
pub enum TransportErrorKind {
    ProtocolNotSupported,
    ProtocolNotAvailable,
    AddressFamilyNotSupported,
    ConnectionRefused,
    AddressInUse,
    NetworkDown,
    NetworkUnreachable,
    HostUnreachable,
    ConnectionReset,
    TimedOut,
    Other,
}

/// A classified sender fault, carrying the kind that raised it.
#[derive(Clone, Copy, Debug, PartialEq, Eq, Structural)]
pub enum SenderError {
    Connection(TransportErrorKind),
    Configuration(TransportErrorKind),
    Transport(TransportErrorKind),
}

/// How each transport fault kind is classified.
pub open spec fn classify_spec(kind: TransportErrorKind) -> SenderError {
    match kind {
        TransportErrorKind::ProtocolNotSupported => SenderError::Configuration(kind),
        TransportErrorKind::ProtocolNotAvailable => SenderError::Configuration(kind),
        TransportErrorKind::AddressFamilyNotSupported => SenderError::Configuration(kind),
        TransportErrorKind::ConnectionRefused => SenderError::Connection(kind),
        TransportErrorKind::AddressInUse => SenderError::Connection(kind),
        TransportErrorKind::NetworkDown => SenderError::Connection(kind),
        TransportErrorKind::NetworkUnreachable => SenderError::Connection(kind),
        TransportErrorKind::HostUnreachable => SenderError::Connection(kind),
        TransportErrorKind::ConnectionReset => SenderError::Connection(kind),
        TransportErrorKind::TimedOut => SenderError::Connection(kind),
        TransportErrorKind::Other => SenderError::Transport(kind),
    }
}

/// Classifies a transport fault kind.
pub fn classify_transport_error(kind: TransportErrorKind) -> (r: SenderError)
    ensures
        r == classify_spec(kind),
{
    match kind {
        TransportErrorKind::ProtocolNotSupported => SenderError::Configuration(kind),
        TransportErrorKind::ProtocolNotAvailable => SenderError::Configuration(kind),
        TransportErrorKind::AddressFamilyNotSupported => SenderError::Configuration(kind),
        TransportErrorKind::ConnectionRefused => SenderError::Connection(kind),
        TransportErrorKind::AddressInUse => SenderError::Connection(kind),
        TransportErrorKind::NetworkDown => SenderError::Connection(kind),
        TransportErrorKind::NetworkUnreachable => SenderError::Connection(kind),
        TransportErrorKind::HostUnreachable => SenderError::Connection(kind),
        TransportErrorKind::ConnectionReset => SenderError::Connection(kind),
        TransportErrorKind::TimedOut => SenderError::Connection(kind),
        TransportErrorKind::Other => SenderError::Transport(kind),
    }
}

impl SenderError {
    /// The short description of the fault's class.
    pub fn description(&self) -> (s: &'static str)
        ensures
            s@ == match *self {
                SenderError::Connection(_) => "Processor connecitivity issue"@,
                SenderError::Configuration(_) => "Sender configuration error"@,
                SenderError::Transport(_) => "Transport error"@,
            },
    {
        match self {
            SenderError::Connection(_) => "Processor connecitivity issue",
            SenderError::Configuration(_) => "Sender configuration error",
            SenderError::Transport(_) => "Transport error",
        }
    }
}

} // verus!
