//! Parsing, validation, and canonical formatting of BIP32-style hierarchical
//! key-derivation paths: text such as `m/0'/1/2'` is converted to an ordered
//! sequence of typed child indices and back.

pub mod child_index;
pub mod errors;
pub mod laws;
pub mod path;
pub mod text;

pub use child_index::ChildIndex;
pub use child_index::MAX_CHILD_INDEX;
pub use errors::DerivationPathError;
pub use path::EthereumDerivationPath;
