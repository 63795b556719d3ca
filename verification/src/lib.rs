//! Verified core of the Oxlip API language compiler: type tags, tagging and
//! constraint rules, type inference by unification, equivalence classes of
//! tags, type checking rules, resolution of references, primitive schemas,
//! annotations, module loading order, recursive definitions, scoped
//! environments, and the text positions, documents and loop decisions of the
//! language server.

pub mod locator;
pub mod tag;
pub mod disjoin;
pub mod errors;
pub mod unify;
pub mod union;
pub mod position;
pub mod annotation;
pub mod module;
pub mod typecheck;
pub mod env;
pub mod infer;
pub mod codegen;
pub mod cli;
pub mod defgraph;
pub mod scope;
pub mod workspace;
pub mod modset;
pub mod server;
pub mod rules;
pub mod resolver;
pub mod eval;
