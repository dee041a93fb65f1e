use vstd::prelude::*;

verus! {

/// Every failure the engine can report.  Storage faults and corruption
/// propagate as is; parameter validation fails eagerly at API entry.
#[derive(Clone, Copy, Debug, PartialEq, Eq, Structural)]
pub enum ChainError {
    /// A constructor argument outside its documented domain.
    InvalidParameter,
    /// Two Bloom filters with different (hasher count, bits per hasher).
    ConfigurationMismatch,
    /// A lookup against an index that has no segments yet.
    NotBuilt,
    /// A training point whose timestamp precedes the one before it.
    OutOfOrder,
    /// An attribute name outside {id, address, value, timestamp}.
    UnknownAttribute,
    /// A numeric range bound that does not parse.
    BadRangeBound,
    /// Attribute and range lists of different lengths.
    MalformedQuery,
    /// Gradient fitting without any observed costs.
    NoObservations,
    /// A learning rate outside (0, 1].
    InvalidLearningRate,
    /// No index configuration is affordable under the storage budget.
    BudgetTooSmall,
    /// The backing store refused a read or write.
    StorageUnavailable,
    /// Stored bytes that do not decode to the expected record.
    Corruption,
    /// A membership proof that is not well formed.
    ProofMalformed,
}

impl ChainError {
    /// A short stable name for logs and messages.
    pub fn as_str(&self) -> (r: &'static str)
        ensures r@.len() > 0,
    {
        proof {
            reveal_strlit("invalid parameter");
            reveal_strlit("configuration mismatch");
            reveal_strlit("index not built");
            reveal_strlit("points out of order");
            reveal_strlit("unknown attribute");
            reveal_strlit("bad range bound");
            reveal_strlit("malformed query");
            reveal_strlit("no observations");
            reveal_strlit("invalid learning rate");
            reveal_strlit("storage budget too small");
            reveal_strlit("storage unavailable");
            reveal_strlit("corruption");
            reveal_strlit("proof malformed");
        }
        match self {
            ChainError::InvalidParameter => "invalid parameter",
            ChainError::ConfigurationMismatch => "configuration mismatch",
            ChainError::NotBuilt => "index not built",
            ChainError::OutOfOrder => "points out of order",
            ChainError::UnknownAttribute => "unknown attribute",
            ChainError::BadRangeBound => "bad range bound",
            ChainError::MalformedQuery => "malformed query",
            ChainError::NoObservations => "no observations",
            ChainError::InvalidLearningRate => "invalid learning rate",
            ChainError::BudgetTooSmall => "storage budget too small",
            ChainError::StorageUnavailable => "storage unavailable",
            ChainError::Corruption => "corruption",
            ChainError::ProofMalformed => "proof malformed",
        }
    }
}

/// Why a verification of query evidence failed; an empty list means valid.
#[derive(Clone, Copy, Debug, PartialEq, Eq, Structural)]
pub enum InvalidReason {
    InvalidSignature,
    ProofMalformed,
    RootMismatch,
    MissingBoundary,
}

/// The outcome a light client computes from returned evidence.
#[derive(Clone, Debug, PartialEq, Eq)]
pub struct VerifyResult {
    pub reasons: Vec<InvalidReason>,
}

impl VerifyResult {
    /// A fresh result with no recorded defects.
    pub fn new() -> (r: Self)
        ensures r.reasons@ =~= Seq::<InvalidReason>::empty(),
    {
        VerifyResult { reasons: Vec::new() }
    }

    /// Record one defect.
    pub fn add(&mut self, reason: InvalidReason)
        ensures final(self).reasons@ =~= old(self).reasons@.push(reason),
    {
        self.reasons.push(reason);
    }

    /// Valid means no defect was recorded.
    pub fn is_valid(&self) -> (r: bool)
        ensures r == (self.reasons@.len() == 0),
    {
        self.reasons.len() == 0
    }
}

} // verus!
