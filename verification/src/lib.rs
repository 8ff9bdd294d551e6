//! Parsing and canonical formatting of Package URLs (purls).
//!
//! A purl is a compact identifier of a software package across ecosystems,
//! of the form `pkg:type/namespace/name@version?qualifiers#subpath`. The
//! crate decomposes a raw purl string into validated, percent-decoded
//! fields ([`PackageUrl::from_str`]), lets a purl be built and changed
//! through validating constructors and mutators ([`PackageUrl::new`] and
//! the `with_*`/`add_*` methods), and serializes the value to its canonical
//! text ([`PackageUrl::to_string`]).
//!
//! Every operation carries a contract against a mathematical model of the
//! purl ([`purl::PurlModel`]), and the round-trip laws are proved in
//! [`roundtrip`]: decomposing a canonical form restores the purl it was
//! formatted from, re-formatting is stable, qualifier order never affects
//! the output, and the percent codec inverts itself.

pub mod codec;
pub mod errors;
pub mod parser;
pub mod purl;
pub mod roundtrip;
pub mod strutil;
pub mod utils;
pub mod validation;

pub use errors::Error;
pub use parser::parse_name;
pub use parser::parse_namespace;
pub use parser::parse_qualifiers;
pub use parser::parse_scheme;
pub use parser::parse_subpath;
pub use parser::parse_type;
pub use parser::parse_version;
pub use purl::PackageUrl;
pub use utils::JoinableIterator;
pub use utils::QuickFind;
pub use utils::cut;
pub use utils::rcut;
pub use validation::is_namespace_component_valid;
pub use validation::is_qualifier_key_valid;
pub use validation::is_subpath_segment_valid;
pub use validation::is_type_valid;
