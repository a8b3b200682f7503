//! One compilation from the schema as declared to the resolved type graph.

use vstd::prelude::*;
use crate::doc::{names_listed, targets};
use crate::graph::{
    dependency_in, depends, depends_at, takes_before, uses_before, ResolutionState, Type, TypeGraph,
};
use crate::linking::{
    check_references, enum_links, field_links, param_links, reports_all, resolve_type, type_named,
    ReferenceError,
};
use crate::naming::{
    entries, error_views, lemma_found_in_table, lists_types, register_all, NameError, NameErrorView,
    NamingContext, SymbolView,
};
use crate::obligation::ObligationKind;
use crate::reference::Context;
use crate::request::{asks_at, Slot};
use crate::resolver::{
    lemma_wanted_by_shape, left_dangling, obliged, parent_wanted, reports_dangling, root_wanted,
    same_shape, shape_kept, DanglingObligation,
};
use crate::schema::{countable, Declared, SchemaSet};

verus! {

/// Why a compilation ended without a graph. Each stage reports all of its
/// errors together, and no later stage runs.
#[derive(Debug, PartialEq, Eq)]
pub enum CompileError {
    /// Names that were declared twice.
    Names(Vec<NameError>),
    /// References to types and enumerations that do not resolve.
    References(Vec<ReferenceError>),
    /// References to values of the root or of the parent that no type can
    /// answer.
    Obligations(Vec<DanglingObligation>),
}

/// What a compilation hands on: the table of names and the graph, both
/// final.
#[derive(Debug)]
pub struct Compiled {
    pub names: NamingContext,
    pub graph: TypeGraph,
}

impl Compiled {
    /// The node of the declared type that `name` stands for, if it stands
    /// for one.
    pub fn node(&self, name: &str) -> (r: Option<&Type>)
        requires
            self.names.well_formed(),
        ensures
            match type_named(self.names@, self.graph.nodes@.len() as int, name@) {
                Some(j) => r == Some(&self.graph.nodes@[j]),
                None => r is None,
            },
    {
        match resolve_type(&self.names, self.graph.nodes.len(), name) {
            Ok(j) => Some(&self.graph.nodes[j]),
            Err(_) => None,
        }
    }
}

/// Whether the obligations of `nodes` are what the expressions of `decls`
/// ask and no more: the first type, the root of the compiled schema, has to
/// supply what is asked of the root; every type has to supply what the types
/// that it is a parent or maybe-parent of ask of their parent; each under
/// the kind under which the type supplies it.
pub open spec fn obligations_of(nodes: Seq<Type>, decls: Seq<Declared>) -> bool {
    forall|t: int|
        0 <= t < nodes.len() ==> {
            &&& (#[trigger] nodes[t]).root_obligations@ == if t == 0 {
                obliged(Map::empty(), root_wanted(decls), *decls[0].spec)
            } else {
                Map::empty()
            }
            &&& nodes[t].parent_obligations@ == obliged(
                Map::empty(),
                parent_wanted(decls, nodes, t),
                *decls[t].spec,
            )
        }
}

/// Whether `c` is the outcome of compiling the declared types `decls`.
pub open spec fn compiled_from(c: Compiled, decls: Seq<Declared>) -> bool {
    &&& c.names.well_formed()
    &&& register_all(entries(decls)) == (c.names@, Seq::<NameErrorView>::empty())
    &&& lists_types(c.names@, decls)
    &&& reports_all(Seq::empty(), c.names@, decls)
    &&& c.graph.shaped_by(c.names@, decls)
    &&& c.graph.well_formed()
    &&& c.graph.state == ResolutionState::Resolved
    &&& obligations_of(c.graph.nodes@, decls)
    &&& reports_dangling(Seq::empty(), c.graph.nodes@, decls)
    &&& forall|j: int| 0 <= j < c.graph.nodes@.len() ==> names_listed(#[trigger] c.graph.nodes@[j], c.names@)
}

/// Every type and declaration that a node of the graph names is in the
/// table of names.
pub proof fn lemma_graph_names_listed(
    graph: TypeGraph,
    table: Seq<SymbolView>,
    decls: Seq<Declared>,
    j: int,
)
    requires
        graph.shaped_by(table, decls),
        graph.well_formed(),
        lists_types(table, decls),
        0 <= j < graph.nodes@.len(),
    ensures
        names_listed(graph.nodes@[j], table),
{
    let node = graph.nodes@[j];
    let deps = node.depends_on@;
    assert forall|i: int| 0 <= i < targets(deps).len() implies targets(deps)[i] < table.len() by {
        let s = deps[i].on as int;
        assert(depends_at(deps, i, s));
        assert(dependency_in(deps, s) is Some);
        assert(depends(table, decls, j, s) is Some);
        let n = decls[j].spec.members().len() as int;
        let p = decls[j].spec.params@.len() as int;
        if uses_before(table, decls, j, n, s) {
            let k = choose|k: int| 0 <= k < n && field_links(table, decls, j, k, s);
            lemma_found_in_table(table, decls[j].spec.members()[k].named_type()->0);
        } else if takes_before(table, decls, j, p, s) {
            let k = choose|k: int| 0 <= k < p && param_links(table, decls, j, k, s);
            lemma_found_in_table(table, decls[j].spec.params@[k].named_type()->0);
        } else {
            let k = choose|k: int| 0 <= k < n && enum_links(table, decls, j, k, s);
            lemma_found_in_table(table, decls[j].spec.members()[k].enum_ref->0@);
        }
    }
}

/// Compiles the schema set: registers every name, checks every reference to
/// a type or an enumeration, builds the graph and resolves the obligations.
/// The first stage that finds errors ends the compilation with all of them.
pub fn compile(set: &SchemaSet) -> (r: Result<Compiled, CompileError>)
    requires
        countable(set.declared()),
    ensures
        match r {
            Ok(c) => compiled_from(c, set.declared()),
            Err(CompileError::Names(errors)) => errors@.len() > 0 && register_all(
                entries(set.declared()),
            ).1 == error_views(errors@),
            Err(CompileError::References(errors)) => {
                &&& errors@.len() > 0
                &&& register_all(entries(set.declared())).1.len() == 0
                &&& reports_all(errors@, register_all(entries(set.declared())).0, set.declared())
            },
            Err(CompileError::Obligations(errors)) => {
                &&& errors@.len() > 0
                &&& register_all(entries(set.declared())).1.len() == 0
                &&& reports_all(Seq::empty(), register_all(entries(set.declared())).0, set.declared())
                &&& exists|graph: TypeGraph|
                    graph.shaped_by(register_all(entries(set.declared())).0, set.declared())
                        && reports_dangling(errors@, graph.nodes@, set.declared())
            },
        },
{
    let decls = set.flatten();
    let names = match NamingContext::build(&decls) {
        Ok(names) => names,
        Err(errors) => {
            return Err(CompileError::Names(errors));
        },
    };
    let faults = check_references(&names, &decls);
    if faults.len() > 0 {
        return Err(CompileError::References(faults));
    }
    assert(faults@ =~= Seq::<ReferenceError>::empty());
    let mut graph = TypeGraph::build(&names, &decls);
    let ghost built = graph;
    let outcome = graph.resolve_obligations(&decls);
    proof {
        let before = built.nodes@;
        let after = graph.nodes@;
        assert forall|t: int| 0 <= t < after.len() implies {
            &&& (#[trigger] after[t]).root_obligations@ == if t == 0 {
                obliged(Map::empty(), root_wanted(decls@), *decls@[0].spec)
            } else {
                Map::empty()
            }
            &&& after[t].parent_obligations@ == obliged(
                Map::empty(),
                parent_wanted(decls@, after, t),
                *decls@[t].spec,
            )
        } by {
            lemma_wanted_by_shape(decls@, before, after, t);
            assert(before[t].root_obligations@ =~= Map::<Seq<char>, ObligationKind>::empty());
            assert(before[t].parent_obligations@ =~= Map::<Seq<char>, ObligationKind>::empty());
            assert(before[0].root_obligations@ =~= Map::<Seq<char>, ObligationKind>::empty());
        }
        assert(graph.shaped_by(names@, decls@)) by {
            assert forall|j: int| 0 <= j < after.len() implies same_shape(before[j], #[trigger] after[j]) by {}
        }
    }
    match outcome {
        Ok(_) => {
            proof {
                lemma_dangling_by_shape(Seq::empty(), built.nodes@, graph.nodes@, decls@);
                assert forall|j: int| 0 <= j < graph.nodes@.len() implies names_listed(
                    #[trigger] graph.nodes@[j],
                    names@,
                ) by {
                    lemma_graph_names_listed(graph, names@, decls@, j);
                }
            }
            Ok(Compiled { names, graph })
        },
        Err(errors) => Err(CompileError::Obligations(errors)),
    }
}

/// Which references dangle depends on the shape of the graph alone.
pub proof fn lemma_dangling_by_shape(
    errors: Seq<DanglingObligation>,
    a: Seq<Type>,
    b: Seq<Type>,
    decls: Seq<Declared>,
)
    requires
        shape_kept(a, b),
        a.len() == decls.len(),
        reports_dangling(errors, a, decls),
    ensures
        reports_dangling(errors, b, decls),
{
    assert forall|x: int, k: int, s: Slot, o: int, context: Context, name: Seq<char>|
        left_dangling(decls, a, x, k, s, o, context, name) == left_dangling(
            decls,
            b,
            x,
            k,
            s,
            o,
            context,
            name,
        ) by {
        if asks_at(decls, x, k, s, o, context, name) && context == Context::Parent {
            assert(same_shape(a[x], b[x]));
        }
    }
}

} // verus!
