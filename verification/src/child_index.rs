use crate::errors::DerivationPathError;
use vstd::prelude::*;

verus! {

/// The largest logical child index: 2^31 - 1. Hardened indices are offset
/// by 2^31 when encoded elsewhere, so the logical index itself must leave
/// that bit free.
pub const MAX_CHILD_INDEX: u32 = 0x7fff_ffff;

/// One step in a derivation path: a 31-bit child index, either normal
/// (publicly derivable) or hardened (derivable only with the parent
/// private key). The payload is the unshifted logical index.
#[derive(Debug, Clone, Copy, PartialEq, Eq, Structural)]
pub enum ChildIndex {
    Normal(u32),
    Hardened(u32),
}

impl ChildIndex {
    /// The logical index, regardless of kind.
    pub open spec fn value(self) -> u32 {
        match self {
            ChildIndex::Normal(n) => n,
            ChildIndex::Hardened(n) => n,
        }
    }

    pub open spec fn is_hardened(self) -> bool {
        match self {
            ChildIndex::Normal(_) => false,
            ChildIndex::Hardened(_) => true,
        }
    }

    /// The index invariant: the logical value fits in 31 bits.
    pub open spec fn is_valid(self) -> bool {
        self.value() <= MAX_CHILD_INDEX
    }

    /// Builds a normal index, rejecting values above 2^31 - 1.
    pub fn from_normal(n: u32) -> (r: Result<ChildIndex, DerivationPathError>)
        ensures
            n <= MAX_CHILD_INDEX ==> r == Ok::<ChildIndex, DerivationPathError>(
                ChildIndex::Normal(n),
            ),
            n > MAX_CHILD_INDEX ==> r == Err::<ChildIndex, DerivationPathError>(
                DerivationPathError::InvalidChildNumber(n),
            ),
    {
        if n <= MAX_CHILD_INDEX {
            Ok(ChildIndex::Normal(n))
        } else {
            Err(DerivationPathError::InvalidChildNumber(n))
        }
    }

    /// Builds a hardened index, rejecting values above 2^31 - 1.
    pub fn from_hardened(n: u32) -> (r: Result<ChildIndex, DerivationPathError>)
        ensures
            n <= MAX_CHILD_INDEX ==> r == Ok::<ChildIndex, DerivationPathError>(
                ChildIndex::Hardened(n),
            ),
            n > MAX_CHILD_INDEX ==> r == Err::<ChildIndex, DerivationPathError>(
                DerivationPathError::InvalidChildNumber(n),
            ),
    {
        if n <= MAX_CHILD_INDEX {
            Ok(ChildIndex::Hardened(n))
        } else {
            Err(DerivationPathError::InvalidChildNumber(n))
        }
    }
}

} // verus!
