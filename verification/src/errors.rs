use vstd::prelude::*;

verus! {

/// Why a textual derivation path was rejected. Every failure of the parser
/// is one of these values; none carries free text, so callers can branch on
/// the kind.
#[derive(Debug, Clone)]
pub enum DerivationPathError {
    /// The root token of the text was not the literal `m`; carries the whole
    /// rejected input for diagnostics.
    InvalidDerivationPath(String),
    /// A child token (after stripping an optional hardening marker) was not
    /// a plain base-10 number.
    InvalidChildNumberFormat,
    /// A child token held a well-formed number outside the 31-bit index
    /// range; carries the offending value.
    InvalidChildNumber(u32),
}

impl PartialEq for DerivationPathError {
    fn eq(&self, other: &Self) -> bool {
        match (self, other) {
            (
                DerivationPathError::InvalidDerivationPath(a),
                DerivationPathError::InvalidDerivationPath(b),
            ) => a.eq(b),
            (
                DerivationPathError::InvalidChildNumberFormat,
                DerivationPathError::InvalidChildNumberFormat,
            ) => true,
            (
                DerivationPathError::InvalidChildNumber(a),
                DerivationPathError::InvalidChildNumber(b),
            ) => a == b,
            _ => false,
        }
    }
}

impl vstd::std_specs::cmp::PartialEqSpecImpl for DerivationPathError {
    open spec fn obeys_eq_spec() -> bool {
        true
    }

    open spec fn eq_spec(&self, other: &Self) -> bool {
        match (self, other) {
            (
                DerivationPathError::InvalidDerivationPath(a),
                DerivationPathError::InvalidDerivationPath(b),
            ) => a@ == b@,
            (
                DerivationPathError::InvalidChildNumberFormat,
                DerivationPathError::InvalidChildNumberFormat,
            ) => true,
            (
                DerivationPathError::InvalidChildNumber(a),
                DerivationPathError::InvalidChildNumber(b),
            ) => a == b,
            _ => false,
        }
    }
}

} // verus!
