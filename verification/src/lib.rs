//! Name resolution for a class-based language with single inheritance,
//! mixins and interfaces: it binds every identifier and every qualified path
//! of a program to the declaration it refers to, and computes for every
//! class and every compilation unit the table of names that it exports.
//!
//! The program is given as a syntax tree in an arena ([`ast::Ast`]); names
//! are interned symbols. The tree is never changed: results, export tables
//! and diagnostics are kept beside it ([`analysis::Analysis`]), each result
//! and each table written once. The passes are
//!
//! - the collector ([`collect`]), which binds what a unit or a class
//!   declares, follows import and export directives and computes the export
//!   table of a unit,
//! - the shallow pass ([`shallow`]), which resolves the names of types
//!   against the flat scope of a unit,
//! - the export tables of classes ([`exports`]), and
//! - the full pass ([`full`]), which walks a unit with lexical scopes.
//!
//! [`full::resolve`] runs them on a unit. Failures are values: what cannot
//! be resolved gets [`res::Res::Error`] and a diagnostic, and the rest of
//! the program is resolved all the same.
//!
//! Every function is verified against a contract over mathematical models:
//! a scope chain is a sequence of finite maps ([`scope`]), the state of a
//! resolution is a record of maps ([`analysis::State`]).

pub mod analysis;
pub mod ast;
pub mod collect;
pub mod exports;
pub mod full;
pub mod res;
pub mod scope;
pub mod shallow;

pub use crate::analysis::{Analysis, Cached, Diagnostic};
pub use crate::ast::{Ast, FnName, ImportFilter, NodeData, NodeKind};
pub use crate::collect::Collector;
pub use crate::full::{resolve, Resolver};
pub use crate::res::{Module, Node, Res, Symbol};
pub use crate::scope::ScopeChain;
pub use crate::shallow::TopLevelResolver;
