//! Schema-aware compiler front-end for a declarative data-fetching language.
//!
//! The crate has two tightly coupled subsystems:
//! - resolver declaration processing, which validates a parsed resolver
//!   declaration and installs it into the schema's field table, and
//! - the selection merge engine, which folds a resolver's transitive
//!   selections into one canonical, deduplicated, deterministically
//!   ordered selection tree.

pub mod string_map;
pub mod alias_map;
pub mod config;
pub mod lang;
pub mod merged;
pub mod opt;
pub mod order;
pub mod process_resolver_declaration;
pub mod schema;

use vstd::prelude::*;

verus! {

/// A field of a schema type is either resolved by the server or computed
/// by a client-declared resolver.
#[derive(Debug, Clone, PartialEq, Eq)]
pub enum DefinedField<S, R> {
    ServerField(S),
    ResolverField(R),
}

} // verus!
