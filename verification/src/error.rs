//! The errors of the service.
use vstd::prelude::*;

verus! {

/// What can go wrong; each kind carries a message.
#[derive(Debug, Clone)]
pub enum AppError {
    /// The configuration is missing or malformed.
    LoadConfigFailed(String),
    /// The connection to the node failed.
    GrpcTransportError(String),
    /// The node answered with an error.
    GrpcError(String),
    /// A message of the node has an unexpected shape.
    InvalidMessage(String),
    /// A text is not base58.
    InvalidBase58String(String),
    /// A statement of the store failed.
    DbError(String),
    /// The store cannot be reached.
    ConnectionError(String),
    /// A batch could not be handed on.
    SendError(String),
    /// A task ended abnormally.
    JoinError(String),
    /// The stream of updates ended or delivered an empty message.
    StreamClosed(String),
    /// The readiness check failed.
    LivenessCheckFailed(String),
    /// A sequence of uids has no value left.
    SequenceExhausted(String),
}

impl AppError {
    /// The name of the kind of this error.
    pub open spec fn kind(self) -> Seq<char> {
        match self {
            AppError::LoadConfigFailed(_) => "LoadConfigFailed"@,
            AppError::GrpcTransportError(_) => "GrpcTransportError"@,
            AppError::GrpcError(_) => "GrpcError"@,
            AppError::InvalidMessage(_) => "InvalidMessage"@,
            AppError::InvalidBase58String(_) => "InvalidBase58String"@,
            AppError::DbError(_) => "DbError"@,
            AppError::ConnectionError(_) => "ConnectionError"@,
            AppError::SendError(_) => "SendError"@,
            AppError::JoinError(_) => "JoinError"@,
            AppError::StreamClosed(_) => "StreamClosed"@,
            AppError::LivenessCheckFailed(_) => "LivenessCheckFailed"@,
            AppError::SequenceExhausted(_) => "SequenceExhausted"@,
        }
    }

    /// The message that this error carries.
    pub open spec fn detail(self) -> Seq<char> {
        match self {
            AppError::LoadConfigFailed(m) => m@,
            AppError::GrpcTransportError(m) => m@,
            AppError::GrpcError(m) => m@,
            AppError::InvalidMessage(m) => m@,
            AppError::InvalidBase58String(m) => m@,
            AppError::DbError(m) => m@,
            AppError::ConnectionError(m) => m@,
            AppError::SendError(m) => m@,
            AppError::JoinError(m) => m@,
            AppError::StreamClosed(m) => m@,
            AppError::LivenessCheckFailed(m) => m@,
            AppError::SequenceExhausted(m) => m@,
        }
    }

    /// The error as text: its kind, a colon and a space, and its message.
    pub fn message(&self) -> (text: String)
        ensures
            text@ == self.kind() + ": "@ + self.detail(),
    {
        let (kind, detail) = match self {
            AppError::LoadConfigFailed(m) => ("LoadConfigFailed", m),
            AppError::GrpcTransportError(m) => ("GrpcTransportError", m),
            AppError::GrpcError(m) => ("GrpcError", m),
            AppError::InvalidMessage(m) => ("InvalidMessage", m),
            AppError::InvalidBase58String(m) => ("InvalidBase58String", m),
            AppError::DbError(m) => ("DbError", m),
            AppError::ConnectionError(m) => ("ConnectionError", m),
            AppError::SendError(m) => ("SendError", m),
            AppError::JoinError(m) => ("JoinError", m),
            AppError::StreamClosed(m) => ("StreamClosed", m),
            AppError::LivenessCheckFailed(m) => ("LivenessCheckFailed", m),
            AppError::SequenceExhausted(m) => ("SequenceExhausted", m),
        };
        String::from_str(kind).concat(": ").concat(detail.as_str())
    }
}

} // verus!
