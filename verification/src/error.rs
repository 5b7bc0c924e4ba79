//! Errors of the maintenance plane and of the operator layer.

use vstd::prelude::*;

use crate::text::{join3, join5, owned};

verus! {

/// Errors across the maintenance plane.
#[derive(Debug)]
pub enum CdcError {
    /// Socket-level failure.
    Io(String),
    /// The byte stream violated the frontend/backend protocol.
    Protocol(String),
    /// The server reported an error (`code` is the SQLSTATE).
    Backend {
        /// SQLSTATE.
        code: String,
        /// Human-readable message.
        message: String,
    },
    /// A pgoutput or tuple payload did not decode.
    Decode(String),
    /// The change did not apply to the mirror database.
    Apply(String),
}

/// An error as its kind and its texts.
pub enum CdcErrorView {
    Io(Seq<char>),
    Protocol(Seq<char>),
    Backend(Seq<char>, Seq<char>),
    Decode(Seq<char>),
    Apply(Seq<char>),
}

impl View for CdcError {
    type V = CdcErrorView;

    open spec fn view(&self) -> CdcErrorView {
        match self {
            CdcError::Io(m) => CdcErrorView::Io(m@),
            CdcError::Protocol(m) => CdcErrorView::Protocol(m@),
            CdcError::Backend { code, message } => CdcErrorView::Backend(code@, message@),
            CdcError::Decode(m) => CdcErrorView::Decode(m@),
            CdcError::Apply(m) => CdcErrorView::Apply(m@),
        }
    }
}

/// The rendered message of an error.
pub open spec fn error_text(e: CdcErrorView) -> Seq<char> {
    match e {
        CdcErrorView::Io(m) => "io: "@ + m,
        CdcErrorView::Protocol(m) => "protocol: "@ + m,
        CdcErrorView::Backend(code, message) => "backend "@ + code + ": "@ + message,
        CdcErrorView::Decode(m) => "decode: "@ + m,
        CdcErrorView::Apply(m) => "apply: "@ + m,
    }
}

impl CdcError {
    /// The rendered message: the kind, then the detail.
    pub fn to_text(&self) -> (s: String)
        ensures
            s@ == error_text(self@),
    {
        let s = match self {
            CdcError::Io(m) => join3("io: ", m.as_str(), ""),
            CdcError::Protocol(m) => join3("protocol: ", m.as_str(), ""),
            CdcError::Backend { code, message } => join5(
                "backend ",
                code.as_str(),
                ": ",
                message.as_str(),
                "",
            ),
            CdcError::Decode(m) => join3("decode: ", m.as_str(), ""),
            CdcError::Apply(m) => join3("apply: ", m.as_str(), ""),
        };
        proof {
            reveal_strlit("");
            assert(s@ =~= error_text(self@));
        }
        s
    }

    /// Another error of the same kind and text.
    pub fn copy(&self) -> (e: CdcError)
        ensures
            e@ == self@,
    {
        match self {
            CdcError::Io(m) => CdcError::Io(owned(m.as_str())),
            CdcError::Protocol(m) => CdcError::Protocol(owned(m.as_str())),
            CdcError::Backend { code, message } => CdcError::Backend {
                code: owned(code.as_str()),
                message: owned(message.as_str()),
            },
            CdcError::Decode(m) => CdcError::Decode(owned(m.as_str())),
            CdcError::Apply(m) => CdcError::Apply(owned(m.as_str())),
        }
    }
}

/// The outcome is a `Decode` error with this text.
pub open spec fn decode_err<T>(r: Result<T, CdcError>, text: Seq<char>) -> bool {
    r matches Err(e) && e@ == CdcErrorView::Decode(text)
}

/// The outcome is an `Apply` error with this text.
pub open spec fn apply_err<T>(r: Result<T, CdcError>, text: Seq<char>) -> bool {
    r matches Err(e) && e@ == CdcErrorView::Apply(text)
}

/// The outcome is a `Protocol` error with this text.
pub open spec fn protocol_err<T>(r: Result<T, CdcError>, text: Seq<char>) -> bool {
    r matches Err(e) && e@ == CdcErrorView::Protocol(text)
}

/// Errors of the operator and its storage layer.
#[derive(Debug)]
pub enum BruceError {
    /// A key was inserted twice without an intervening delete or update.
    DuplicateKey(String),
    /// A delete was issued for a key that is not in the live set.
    KeyNotFound(String),
    /// A read or update was issued by an owner who is not the key's
    /// owner: key, its owner, who asked.
    PermissionDenied(String, String, String),
    /// A vector's dimension does not match the memory's.
    DimensionMismatch {
        /// The dimension the operation required.
        expected: usize,
        /// The dimension actually supplied.
        got: usize,
    },
    /// An invalid temperature (negative or NaN), as its bit pattern.
    InvalidEpsilon(u64),
    /// A function argument failed a validity check.
    InvalidArgument(String),
    /// Overflow, underflow or NaN appeared in an accumulator.
    NumericalInstability(String),
    /// I/O error.
    Io(String),
    /// Anything else.
    Other(String),
}

/// An error of the operator layer as a mathematical value.
pub enum BruceErrorView {
    DuplicateKey(Seq<char>),
    KeyNotFound(Seq<char>),
    PermissionDenied(Seq<char>, Seq<char>, Seq<char>),
    DimensionMismatch(nat, nat),
    InvalidEpsilon(u64),
    InvalidArgument(Seq<char>),
    NumericalInstability(Seq<char>),
    Io(Seq<char>),
    Other(Seq<char>),
}

impl View for BruceError {
    type V = BruceErrorView;

    open spec fn view(&self) -> BruceErrorView {
        match self {
            BruceError::DuplicateKey(k) => BruceErrorView::DuplicateKey(k@),
            BruceError::KeyNotFound(k) => BruceErrorView::KeyNotFound(k@),
            BruceError::PermissionDenied(k, o, w) => BruceErrorView::PermissionDenied(
                k@,
                o@,
                w@,
            ),
            BruceError::DimensionMismatch { expected, got } => BruceErrorView::DimensionMismatch(
                *expected as nat,
                *got as nat,
            ),
            BruceError::InvalidEpsilon(b) => BruceErrorView::InvalidEpsilon(*b),
            BruceError::InvalidArgument(m) => BruceErrorView::InvalidArgument(m@),
            BruceError::NumericalInstability(m) => BruceErrorView::NumericalInstability(m@),
            BruceError::Io(m) => BruceErrorView::Io(m@),
            BruceError::Other(m) => BruceErrorView::Other(m@),
        }
    }
}

/// The outcome is this error of the operator layer.
pub open spec fn fails<T>(r: Result<T, BruceError>, v: BruceErrorView) -> bool {
    r matches Err(e) && e@ == v
}

} // verus!
