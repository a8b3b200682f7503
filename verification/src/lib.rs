//! Resolution of a declarative binary-format schema into a type graph:
//! names are registered and resolved, declared types become graph nodes with
//! parent and dependency edges, and upward value references become
//! obligations on the types that have to supply them.

pub mod compile;
pub mod doc;
pub mod graph;
pub mod ident;
pub mod linking;
pub mod naming;
pub mod obligation;
pub mod reference;
pub mod request;
pub mod resolver;
pub mod schema;
pub mod summary;
pub mod text;

pub use compile::{compile, CompileError, Compiled};
pub use graph::{Dependency, DependencyKind, ResolutionState, Type, TypeGraph};
pub use ident::Identifier;
pub use linking::{ReferenceError, Site};
pub use naming::{NameError, NamedSymbol, NamingContext};
pub use obligation::{Obligation, ObligationKind, ObligationSet};
pub use reference::{Context, Reference};
pub use request::{Request, Slot};
pub use resolver::DanglingObligation;
pub use schema::{
    AnyScalar, Declared, Endian, EndianSpec, EnumSpec, EnumValueSpec, Expr, FieldSpec, FloatTypeRef,
    IntTypeRef, MetaSpec, ParamSpec, RepeatSpec, Schema, SchemaSet, StringOrArray, TypeRef, TypeSpec,
    WellKnownTypeRef,
};
pub use summary::{summarize, ResolvedDependency, ResolvedObligation, TypeSummary};
