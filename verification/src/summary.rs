//! What is handed on about each type: its relations, each one resolved to
//! the symbol that it names.

use vstd::prelude::*;
use crate::doc::{all_listed, names_listed, targets};
use crate::graph::{Dependency, DependencyKind, Type};
use crate::naming::{clone_module, NamedSymbol, NamingContext, SymbolView};
use crate::obligation::{Obligation, ObligationKind, ObligationSet};

verus! {

/// A declaration that a type depends on, resolved.
#[derive(Debug, PartialEq, Eq)]
pub struct ResolvedDependency {
    pub on: NamedSymbol,
    pub kind: DependencyKind,
}

/// A value that a type has to supply, resolved: the value under its own name
/// in the module of the type.
#[derive(Debug, PartialEq, Eq)]
pub struct ResolvedObligation {
    pub value: NamedSymbol,
    pub kind: ObligationKind,
}

/// The relations of one type, in the order in which they are listed in its
/// node.
#[derive(Debug, PartialEq, Eq)]
pub struct TypeSummary {
    pub symbol: NamedSymbol,
    pub parents: Vec<NamedSymbol>,
    pub maybe_parents: Vec<NamedSymbol>,
    pub depends_on: Vec<ResolvedDependency>,
    pub root_obligations: Vec<ResolvedObligation>,
    pub parent_obligations: Vec<ResolvedObligation>,
}

/// The symbol of the value `name` of a type that `module` declares: a value
/// is emitted under the name that it is declared with.
pub open spec fn value_symbol(module: Option<Seq<char>>, name: Seq<char>) -> SymbolView {
    SymbolView { module, identifier: name, canonical: name }
}

/// Whether `out` lists the symbols at `ids`, in their order.
pub open spec fn resolves_ids(
    out: Seq<NamedSymbol>,
    table: Seq<SymbolView>,
    ids: Seq<usize>,
) -> bool {
    &&& out.len() == ids.len()
    &&& forall|i: int| 0 <= i < ids.len() ==> (#[trigger] out[i])@ == table[ids[i] as int]
}

/// Whether `out` lists the dependencies `deps` with their symbols, in their
/// order.
pub open spec fn resolves_dependencies(
    out: Seq<ResolvedDependency>,
    table: Seq<SymbolView>,
    deps: Seq<Dependency>,
) -> bool {
    &&& out.len() == deps.len()
    &&& forall|i: int|
        0 <= i < deps.len() ==> (#[trigger] out[i]).on@ == table[deps[i].on as int] && out[i].kind
            == deps[i].kind
}

/// Whether `out` lists the obligations `entries` of a type of `module` with
/// their symbols, in their order.
pub open spec fn resolves_obligations(
    out: Seq<ResolvedObligation>,
    module: Option<Seq<char>>,
    entries: Seq<Obligation>,
) -> bool {
    &&& out.len() == entries.len()
    &&& forall|i: int|
        0 <= i < entries.len() ==> (#[trigger] out[i]).value@ == value_symbol(module, entries[i].name@)
            && out[i].kind == entries[i].kind
}

/// The obligations of a set, resolved for a type of the module of `owner`.
fn resolve_obligations_of(
    owner: &NamedSymbol,
    set: &ObligationSet,
) -> (out: Vec<ResolvedObligation>)
    ensures
        resolves_obligations(out@, owner@.module, set.entries@),
{
    let mut out: Vec<ResolvedObligation> = Vec::new();
    let mut i: usize = 0;
    while i < set.entries.len()
        invariant
            i <= set.entries@.len(),
            out@.len() == i,
            forall|j: int|
                0 <= j < i ==> (#[trigger] out@[j]).value@ == value_symbol(
                    owner@.module,
                    set.entries@[j].name@,
                ) && out@[j].kind == set.entries@[j].kind,
        decreases set.entries.len() - i,
    {
        let o = &set.entries[i];
        let value = NamedSymbol {
            identifier: o.name.clone(),
            owning_module: clone_module(&owner.owning_module),
            canonical_name: o.name.as_str().to_owned(),
        };
        out.push(ResolvedObligation { value, kind: o.kind });
        i += 1;
    }
    out
}

/// The relations of the type of `node`, each resolved to its symbol: the
/// parents, the maybe-parents and the declarations depended on as the table
/// of names lists them, the obligations as values of the type's own module.
pub fn summarize(node: &Type, nc: &NamingContext) -> (s: TypeSummary)
    requires
        names_listed(*node, nc@),
    ensures
        s.symbol@ == node.symbol@,
        resolves_ids(s.parents@, nc@, node.parents@),
        resolves_ids(s.maybe_parents@, nc@, node.maybe_parents@),
        resolves_dependencies(s.depends_on@, nc@, node.depends_on@),
        resolves_obligations(s.root_obligations@, node.symbol@.module, node.root_obligations.entries@),
        resolves_obligations(s.parent_obligations@, node.symbol@.module, node.parent_obligations.entries@),
{
    let mut depends_on: Vec<ResolvedDependency> = Vec::new();
    let mut i: usize = 0;
    while i < node.depends_on.len()
        invariant
            i <= node.depends_on@.len(),
            all_listed(nc@, targets(node.depends_on@)),
            depends_on@.len() == i,
            forall|j: int|
                0 <= j < i ==> (#[trigger] depends_on@[j]).on@ == nc@[node.depends_on@[j].on as int]
                    && depends_on@[j].kind == node.depends_on@[j].kind,
        decreases node.depends_on.len() - i,
    {
        let d = &node.depends_on[i];
        assert(targets(node.depends_on@)[i as int] == d.on);
        depends_on.push(ResolvedDependency { on: nc.symbol(d.on).clone(), kind: d.kind });
        i += 1;
    }
    TypeSummary {
        symbol: node.symbol.clone(),
        parents: nc.symbols_of(&node.parents),
        maybe_parents: nc.symbols_of(&node.maybe_parents),
        depends_on,
        root_obligations: resolve_obligations_of(&node.symbol, &node.root_obligations),
        parent_obligations: resolve_obligations_of(&node.symbol, &node.parent_obligations),
    }
}

} // verus!
