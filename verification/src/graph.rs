//! The type graph: one node for each declared type, with the types that hold
//! it, the declarations that it depends on, and its obligations.

use vstd::prelude::*;
use crate::linking::{
    enum_links, enum_named, enum_target, field_links, field_target, param_links, param_target,
    type_named,
};
use crate::naming::{lists_types, NamedSymbol, NamingContext, SymbolView};
use crate::obligation::ObligationSet;
use crate::schema::{countable, Declared};

verus! {

/// Why one declaration needs another.
#[derive(Debug, Clone, Copy, PartialEq, Eq, Structural)]
pub enum DependencyKind {
    /// A field is an instance of the type: its parser has to be there first.
    Sequencing,
    /// A parameter is an instance of the type: likewise.
    Parameter,
    /// A field takes its values from the enumeration: no order is asked for.
    EnumReference,
}

/// One declaration that a type depends on, by its index in the table of
/// names.
#[derive(Debug, Clone, Copy, PartialEq, Eq)]
pub struct Dependency {
    pub on: usize,
    pub kind: DependencyKind,
}

/// The node of one declared type. Other types stand in it by their index,
/// which is their index in the table of names too.
#[derive(Debug, PartialEq, Eq)]
pub struct Type {
    pub symbol: NamedSymbol,
    /// The types of which every value holds a value of this type.
    pub parents: Vec<usize>,
    /// The types of which a value may hold a value of this type, and need not.
    pub maybe_parents: Vec<usize>,
    pub depends_on: Vec<Dependency>,
    /// What this type has to supply as the root of the document.
    pub root_obligations: ObligationSet,
    /// What this type has to supply as the parent of another.
    pub parent_obligations: ObligationSet,
}

/// How far obligation resolution has come on a graph.
#[derive(Debug, Clone, Copy, PartialEq, Eq, Structural)]
pub enum ResolutionState {
    /// No expression has been read yet.
    Unvisited,
    /// Expressions were read and their requests entered, and some reference
    /// found no type to answer it: the graph is not to be handed on.
    InProgress,
    /// Every expression was read and every request entered.
    Resolved,
}

/// The graph of the declared types.
#[derive(Debug, PartialEq, Eq)]
pub struct TypeGraph {
    pub nodes: Vec<Type>,
    pub state: ResolutionState,
}

/// Whether the entries grow strictly.
pub open spec fn ascending(v: Seq<usize>) -> bool {
    forall|a: int, b: int| 0 <= a < b < v.len() ==> v[a] < v[b]
}

/// Whether no entry is greater than `x`.
pub open spec fn bounded(v: Seq<usize>, x: int) -> bool {
    forall|i: int| 0 <= i < v.len() ==> v[i] <= x
}

/// Whether `x` is an entry.
pub open spec fn holds_id(v: Seq<usize>, x: int) -> bool {
    exists|i: int| 0 <= i < v.len() && v[i] == x
}

/// Whether entry `i` is the dependency on `s`.
pub open spec fn depends_at(deps: Seq<Dependency>, i: int, s: int) -> bool {
    0 <= i < deps.len() && deps[i].on == s
}

/// The kind of the dependency on `s`, if there is one.
pub open spec fn dependency_in(deps: Seq<Dependency>, s: int) -> Option<DependencyKind> {
    if exists|i: int| depends_at(deps, i, s) {
        Some(deps[choose|i: int| depends_at(deps, i, s)].kind)
    } else {
        None
    }
}

/// Whether no declaration is depended on twice.
pub open spec fn distinct_targets(deps: Seq<Dependency>) -> bool {
    forall|i: int, j: int|
        0 <= i < deps.len() && 0 <= j < deps.len() && deps[i].on == deps[j].on ==> i == j
}

/// Whether one of the first `bound` members of type `x` is an instance of
/// type `j` that every value of `x` holds.
pub open spec fn holds_before(
    table: Seq<SymbolView>,
    decls: Seq<Declared>,
    x: int,
    bound: int,
    j: int,
) -> bool {
    exists|k: int| 0 <= k < bound && field_links(table, decls, x, k, j) && !decls[x].spec.optional(k)
}

/// Whether one of the first `bound` members of type `x` is an instance of
/// type `j` that a value of `x` may lack.
pub open spec fn may_hold_before(
    table: Seq<SymbolView>,
    decls: Seq<Declared>,
    x: int,
    bound: int,
    j: int,
) -> bool {
    exists|k: int| 0 <= k < bound && field_links(table, decls, x, k, j) && decls[x].spec.optional(k)
}

/// Whether type `x` is a parent of type `j`: some member of `x` that no value
/// of `x` lacks is an instance of `j`.
pub open spec fn is_parent(table: Seq<SymbolView>, decls: Seq<Declared>, x: int, j: int) -> bool {
    0 <= x < decls.len() && holds_before(table, decls, x, decls[x].spec.members().len() as int, j)
}

/// Whether type `x` is a maybe-parent of type `j`: some member of `x` is an
/// instance of `j`, and each such member may be lacking.
pub open spec fn is_maybe_parent(
    table: Seq<SymbolView>,
    decls: Seq<Declared>,
    x: int,
    j: int,
) -> bool {
    &&& 0 <= x < decls.len()
    &&& may_hold_before(table, decls, x, decls[x].spec.members().len() as int, j)
    &&& !is_parent(table, decls, x, j)
}

/// Whether one of the first `bound` members of type `x` is an instance of
/// type `s`.
pub open spec fn uses_before(
    table: Seq<SymbolView>,
    decls: Seq<Declared>,
    x: int,
    bound: int,
    s: int,
) -> bool {
    exists|k: int| 0 <= k < bound && field_links(table, decls, x, k, s)
}

/// Whether one of the first `bound` parameters of type `x` is an instance of
/// type `s`.
pub open spec fn takes_before(
    table: Seq<SymbolView>,
    decls: Seq<Declared>,
    x: int,
    bound: int,
    s: int,
) -> bool {
    exists|p: int| 0 <= p < bound && param_links(table, decls, x, p, s)
}

/// Whether one of the first `bound` members of type `x` takes its values
/// from enumeration `s`.
pub open spec fn ranges_before(
    table: Seq<SymbolView>,
    decls: Seq<Declared>,
    x: int,
    bound: int,
    s: int,
) -> bool {
    exists|k: int| 0 <= k < bound && enum_links(table, decls, x, k, s)
}

/// The dependency of type `x` on `s` that its first members and parameters
/// make. A type does not depend on itself, and of several reasons the first
/// of sequencing, parameter, enumeration stands.
pub open spec fn depends_upto(
    table: Seq<SymbolView>,
    decls: Seq<Declared>,
    x: int,
    s: int,
    fields: int,
    params: int,
    enums: int,
) -> Option<DependencyKind> {
    if s != x && uses_before(table, decls, x, fields, s) {
        Some(DependencyKind::Sequencing)
    } else if s != x && takes_before(table, decls, x, params, s) {
        Some(DependencyKind::Parameter)
    } else if ranges_before(table, decls, x, enums, s) {
        Some(DependencyKind::EnumReference)
    } else {
        None
    }
}

/// The list `deps` with a dependency on `on` added at its end, unless it
/// holds one.
pub open spec fn with_dependency(
    deps: Seq<Dependency>,
    on: usize,
    kind: DependencyKind,
) -> Seq<Dependency> {
    if exists|i: int| depends_at(deps, i, on as int) {
        deps
    } else {
        deps.push(Dependency { on, kind })
    }
}

/// The type that member `k` of type `x` is an instance of.
pub open spec fn linked_type(
    table: Seq<SymbolView>,
    decls: Seq<Declared>,
    x: int,
    k: int,
) -> Option<int> {
    match decls[x].spec.members()[k].named_type() {
        Some(n) => type_named(table, decls.len() as int, n),
        None => None,
    }
}

/// The type that parameter `p` of type `x` is an instance of.
pub open spec fn linked_param(
    table: Seq<SymbolView>,
    decls: Seq<Declared>,
    x: int,
    p: int,
) -> Option<int> {
    match decls[x].spec.params@[p].named_type() {
        Some(n) => type_named(table, decls.len() as int, n),
        None => None,
    }
}

/// The enumeration that member `k` of type `x` takes its values from.
pub open spec fn linked_enum(
    table: Seq<SymbolView>,
    decls: Seq<Declared>,
    x: int,
    k: int,
) -> Option<int> {
    match decls[x].spec.members()[k].enum_ref {
        Some(id) => enum_named(table, decls.len() as int, id@),
        None => None,
    }
}

/// The dependencies of type `x` that its first `k` members make by their
/// types, in the order of the members.
pub open spec fn sequencing_upto(
    table: Seq<SymbolView>,
    decls: Seq<Declared>,
    x: int,
    k: nat,
) -> Seq<Dependency>
    decreases k,
{
    if k == 0 {
        Seq::empty()
    } else {
        let before = sequencing_upto(table, decls, x, (k - 1) as nat);
        match linked_type(table, decls, x, k - 1) {
            Some(j) => if j != x {
                with_dependency(before, j as usize, DependencyKind::Sequencing)
            } else {
                before
            },
            None => before,
        }
    }
}

/// The dependencies of type `x` that its members make by their types, and
/// after them those of its first `p` parameters.
pub open spec fn parameters_upto(
    table: Seq<SymbolView>,
    decls: Seq<Declared>,
    x: int,
    p: nat,
) -> Seq<Dependency>
    decreases p,
{
    if p == 0 {
        sequencing_upto(table, decls, x, decls[x].spec.members().len())
    } else {
        let before = parameters_upto(table, decls, x, (p - 1) as nat);
        match linked_param(table, decls, x, p - 1) {
            Some(j) => if j != x {
                with_dependency(before, j as usize, DependencyKind::Parameter)
            } else {
                before
            },
            None => before,
        }
    }
}

/// The dependencies of type `x` that its members and parameters make by
/// their types, and after them those that its first `k` members make by
/// their enumerations.
pub open spec fn enums_upto(
    table: Seq<SymbolView>,
    decls: Seq<Declared>,
    x: int,
    k: nat,
) -> Seq<Dependency>
    decreases k,
{
    if k == 0 {
        parameters_upto(table, decls, x, decls[x].spec.params@.len())
    } else {
        let before = enums_upto(table, decls, x, (k - 1) as nat);
        match linked_enum(table, decls, x, k - 1) {
            Some(e) => with_dependency(before, e as usize, DependencyKind::EnumReference),
            None => before,
        }
    }
}

/// The dependencies of type `x` in the order in which its node lists them:
/// each declaration once, where it is first met, reading the types of the
/// members, then those of the parameters, then the enumerations of the
/// members.
pub open spec fn dependency_list(
    table: Seq<SymbolView>,
    decls: Seq<Declared>,
    x: int,
) -> Seq<Dependency> {
    enums_upto(table, decls, x, decls[x].spec.members().len())
}

/// The dependency of type `x` on the declaration `s`, if it has one.
pub open spec fn depends(
    table: Seq<SymbolView>,
    decls: Seq<Declared>,
    x: int,
    s: int,
) -> Option<DependencyKind> {
    if 0 <= x < decls.len() {
        depends_upto(
            table,
            decls,
            x,
            s,
            decls[x].spec.members().len() as int,
            decls[x].spec.params@.len() as int,
            decls[x].spec.members().len() as int,
        )
    } else {
        None
    }
}

/// The state of node `j` while the graph is built: the types before `x` are
/// done, of type `x` the first `ka` members are entered as parents and the
/// first `kb` as maybe-parents.
pub open spec fn node_building(
    node: Type,
    j: int,
    table: Seq<SymbolView>,
    decls: Seq<Declared>,
    x: int,
    ka: int,
    kb: int,
) -> bool {
    &&& node.symbol@ == table[j]
    &&& ascending(node.parents@)
    &&& bounded(node.parents@, x)
    &&& ascending(node.maybe_parents@)
    &&& bounded(node.maybe_parents@, x)
    &&& forall|y: int| #[trigger]
        holds_id(node.parents@, y) <==> (0 <= y < x && is_parent(table, decls, y, j)) || (y == x
            && holds_before(table, decls, x, ka, j))
    &&& forall|y: int| #[trigger]
        holds_id(node.maybe_parents@, y) <==> (0 <= y < x && is_maybe_parent(table, decls, y, j)) || (y
            == x && may_hold_before(table, decls, x, kb, j) && !is_parent(table, decls, x, j))
    &&& node.root_obligations.entries@.len() == 0
    &&& node.parent_obligations.entries@.len() == 0
    &&& distinct_targets(node.depends_on@)
    &&& j >= x ==> node.depends_on@.len() == 0
    &&& j < x ==> forall|s: int| #[trigger]
        dependency_in(node.depends_on@, s) == depends(table, decls, j, s)
    &&& j < x ==> node.depends_on@ == dependency_list(table, decls, j)
}

/// The state of all nodes while the graph is built.
pub open spec fn building(
    nodes: Seq<Type>,
    table: Seq<SymbolView>,
    decls: Seq<Declared>,
    x: int,
    ka: int,
    kb: int,
) -> bool {
    &&& nodes.len() == decls.len()
    &&& forall|j: int| 0 <= j < nodes.len() ==> node_building(#[trigger] nodes[j], j, table, decls, x, ka, kb)
}

impl TypeGraph {
    /// Whether the graph is the graph of the declared types `decls` under the
    /// table of names `table`, whatever its obligations: one node for each
    /// type, in the order of `decls`; in each node the parents and the
    /// maybe-parents, each list growing; and its dependencies, each once and
    /// in the order in which they are met.
    pub open spec fn shaped_by(&self, table: Seq<SymbolView>, decls: Seq<Declared>) -> bool {
        &&& lists_types(table, decls)
        &&& self.nodes@.len() == decls.len()
        &&& forall|j: int|
            0 <= j < self.nodes@.len() ==> {
                let node = #[trigger] self.nodes@[j];
                &&& node.symbol@ == table[j]
                &&& ascending(node.parents@)
                &&& ascending(node.maybe_parents@)
                &&& distinct_targets(node.depends_on@)
                &&& forall|y: int| #[trigger] holds_id(node.parents@, y) <==> is_parent(table, decls, y, j)
                &&& forall|y: int| #[trigger]
                    holds_id(node.maybe_parents@, y) <==> is_maybe_parent(table, decls, y, j)
                &&& forall|s: int| #[trigger]
                    dependency_in(node.depends_on@, s) == depends(table, decls, j, s)
                &&& node.depends_on@ == dependency_list(table, decls, j)
            }
    }

    /// Whether no node has an obligation.
    pub open spec fn unobliged(&self) -> bool {
        forall|j: int|
            0 <= j < self.nodes@.len() ==> (#[trigger] self.nodes@[j]).root_obligations.entries@.len() == 0
                && self.nodes@[j].parent_obligations.entries@.len() == 0
    }
}

/// Whether the last entry of a growing list is `x`, which is whether the
/// list holds `x` where nothing in it is greater.
pub fn ends_with(list: &Vec<usize>, x: usize) -> (b: bool)
    requires
        ascending(list@),
        bounded(list@, x as int),
    ensures
        b == holds_id(list@, x as int),
{
    let n = list.len();
    if n > 0 && list[n - 1] == x {
        true
    } else {
        assert forall|i: int| 0 <= i < list@.len() implies list@[i] != x by {
            if i < n - 1 {
                assert(list@[i] < list@[n - 1]);
            }
        }
        false
    }
}

/// Adds `x` at the end of a growing list, unless it is there.
pub fn add_id(list: &mut Vec<usize>, x: usize)
    requires
        ascending(old(list)@),
        bounded(old(list)@, x as int),
    ensures
        ascending(final(list)@),
        bounded(final(list)@, x as int),
        forall|y: int| #[trigger] holds_id(final(list)@, y) <==> (holds_id(old(list)@, y) || y == x),
{
    let ghost before = list@;
    if !ends_with(list, x) {
        list.push(x);
        proof {
            assert forall|a: int, b: int| 0 <= a < b < list@.len() implies list@[a] < list@[b] by {
                if b == before.len() {
                    assert(before[a] <= x);
                    assert(before[a] != x);
                }
            }
            assert forall|y: int| #[trigger] holds_id(list@, y) <==> (holds_id(before, y) || y == x) by {
                if holds_id(before, y) {
                    let i = choose|i: int| 0 <= i < before.len() && before[i] == y;
                    assert(list@[i] == y);
                }
                if y == x {
                    assert(list@[before.len() as int] == x);
                }
            }
        }
    }
}

/// Adds the dependency on `on`, unless there is one.
pub fn add_dependency(deps: &mut Vec<Dependency>, on: usize, kind: DependencyKind)
    requires
        distinct_targets(old(deps)@),
    ensures
        final(deps)@ == with_dependency(old(deps)@, on, kind),
        distinct_targets(final(deps)@),
        forall|s: int| #[trigger]
            dependency_in(final(deps)@, s) == if s == on {
                match dependency_in(old(deps)@, s) {
                    Some(k) => Some(k),
                    None => Some(kind),
                }
            } else {
                dependency_in(old(deps)@, s)
            },
{
    let ghost before = deps@;
    let mut i: usize = 0;
    while i < deps.len()
        invariant
            i <= deps.len(),
            deps@ == before,
            distinct_targets(before),
            forall|j: int| 0 <= j < i ==> !depends_at(before, j, on as int),
        decreases deps.len() - i,
    {
        if deps[i].on == on {
            assert(depends_at(before, i as int, on as int));
            return ;
        }
        i += 1;
    }
    deps.push(Dependency { on, kind });
    proof {
        let last = before.len() as int;
        assert forall|s: int, j: int| depends_at(deps@, j, s) <==> (depends_at(before, j, s) || (j == last
            && s == on)) by {
            if 0 <= j < last {
                assert(deps@[j] == before[j]);
            }
        }
        assert(depends_at(deps@, last, on as int));
        assert forall|a: int, b: int|
            0 <= a < deps@.len() && 0 <= b < deps@.len() && deps@[a].on == deps@[b].on implies a == b by {
            let s = deps@[a].on as int;
            assert(depends_at(deps@, a, s) && depends_at(deps@, b, s));
            assert(depends_at(before, a, s) || a == last);
            assert(depends_at(before, b, s) || b == last);
        }
        assert forall|s: int| #[trigger]
            dependency_in(deps@, s) == if s == on {
                match dependency_in(before, s) {
                    Some(k) => Some(k),
                    None => Some(kind),
                }
            } else {
                dependency_in(before, s)
            } by {
            if s == on {
                let c = choose|j: int| depends_at(deps@, j, s);
                assert(!depends_at(before, c, s));
                assert(c == last);
                assert(!exists|j: int| depends_at(before, j, s));
            } else if exists|j: int| depends_at(before, j, s) {
                let c0 = choose|j: int| depends_at(before, j, s);
                assert(depends_at(deps@, c0, s));
                let c = choose|j: int| depends_at(deps@, j, s);
                assert(depends_at(before, c, s));
                assert(c == c0);
                assert(deps@[c] == before[c]);
            } else {
                if exists|j: int| depends_at(deps@, j, s) {
                    let c = choose|j: int| depends_at(deps@, j, s);
                    assert(depends_at(before, c, s));
                }
            }
        }
    }
}

/// What one more member adds to the relations between type `x` and the
/// types that its members are instances of.
pub proof fn lemma_member_step(table: Seq<SymbolView>, decls: Seq<Declared>, x: int, k: int)
    requires
        0 <= k,
    ensures
        forall|j: int| #[trigger]
            holds_before(table, decls, x, k + 1, j) <==> holds_before(table, decls, x, k, j) || (field_links(
                table,
                decls,
                x,
                k,
                j,
            ) && !decls[x].spec.optional(k)),
        forall|j: int| #[trigger]
            may_hold_before(table, decls, x, k + 1, j) <==> may_hold_before(table, decls, x, k, j) || (
            field_links(table, decls, x, k, j) && decls[x].spec.optional(k)),
        forall|j: int| #[trigger]
            uses_before(table, decls, x, k + 1, j) <==> uses_before(table, decls, x, k, j) || field_links(
                table,
                decls,
                x,
                k,
                j,
            ),
        forall|e: int| #[trigger]
            ranges_before(table, decls, x, k + 1, e) <==> ranges_before(table, decls, x, k, e) || enum_links(
                table,
                decls,
                x,
                k,
                e,
            ),
        forall|j: int| #[trigger]
            takes_before(table, decls, x, k + 1, j) <==> takes_before(table, decls, x, k, j) || param_links(
                table,
                decls,
                x,
                k,
                j,
            ),
{
}

impl TypeGraph {
    /// The graph of the declared types `decls`, with no obligation yet. The
    /// table of names has to list the types first and in their order, as
    /// `NamingContext::build` fills it. A reference that does not resolve to
    /// a declared type or enumeration makes no edge.
    pub fn build(ctx: &NamingContext, decls: &Vec<Declared>) -> (g: TypeGraph)
        requires
            ctx.well_formed(),
            lists_types(ctx@, decls@),
            countable(decls@),
        ensures
            g.shaped_by(ctx@, decls@),
            g.unobliged(),
            g.well_formed(),
            g.state == ResolutionState::Unvisited,
    {
        let n = decls.len();
        let ghost table = ctx@;
        let mut nodes: Vec<Type> = Vec::new();
        let mut j: usize = 0;
        while j < n
            invariant
                j <= n,
                n == decls@.len(),
                n <= ctx@.len(),
                table == ctx@,
                nodes@.len() == j,
                forall|i: int| 0 <= i < j ==> node_building(#[trigger] nodes@[i], i, table, decls@, 0, 0, 0),
            decreases n - j,
        {
            let node = Type {
                symbol: ctx.symbol(j).clone(),
                parents: Vec::new(),
                maybe_parents: Vec::new(),
                depends_on: Vec::new(),
                root_obligations: ObligationSet::new(),
                parent_obligations: ObligationSet::new(),
            };
            assert(node_building(node, j as int, table, decls@, 0, 0, 0));
            nodes.push(node);
            j += 1;
        }
        let mut x: usize = 0;
        while x < n
            invariant
                x <= n,
                n == decls@.len(),
                table == ctx@,
                ctx.well_formed(),
                lists_types(ctx@, decls@),
                countable(decls@),
                building(nodes@, table, decls@, x as int, 0, 0),
            decreases n - x,
        {
            let t = decls[x].spec;
            let members = t.member_count();
            let mut deps: Vec<Dependency> = Vec::new();
            assert forall|s: int| #[trigger]
                dependency_in(deps@, s) == depends_upto(table, decls@, x as int, s, 0, 0, 0) by {}
            let mut k: usize = 0;
            while k < members
                invariant
                    k <= members,
                    x < n,
                    n == decls@.len(),
                    table == ctx@,
                    ctx.well_formed(),
                    t == decls@[x as int].spec,
                    members == t.members().len(),
                    building(nodes@, table, decls@, x as int, k as int, 0),
                    distinct_targets(deps@),
                    deps@ == sequencing_upto(table, decls@, x as int, k as nat),
                    forall|s: int| #[trigger]
                        dependency_in(deps@, s) == depends_upto(table, decls@, x as int, s, k as int, 0, 0),
                decreases members - k,
            {
                proof {
                    lemma_member_step(table, decls@, x as int, k as int);
                }
                let target = field_target(ctx, decls, x, k);
                proof {
                    let linked = linked_type(table, decls@, x as int, k as int);
                    if linked is Some {
                        assert(field_links(table, decls@, x as int, k as int, linked->0));
                    }
                    assert(sequencing_upto(table, decls@, x as int, (k + 1) as nat) == match linked {
                        Some(j) => if j != x {
                            with_dependency(deps@, j as usize, DependencyKind::Sequencing)
                        } else {
                            deps@
                        },
                        None => deps@,
                    });
                }
                match target {
                    Some(j) => {
                        if j != x {
                            add_dependency(&mut deps, j, DependencyKind::Sequencing);
                        }
                        if !t.is_optional(k) {
                            add_id(&mut nodes[j].parents, x);
                        }
                    },
                    None => {},
                }
                k += 1;
            }
            let mut k: usize = 0;
            while k < members
                invariant
                    k <= members,
                    x < n,
                    n == decls@.len(),
                    table == ctx@,
                    ctx.well_formed(),
                    t == decls@[x as int].spec,
                    members == t.members().len(),
                    building(nodes@, table, decls@, x as int, members as int, k as int),
                decreases members - k,
            {
                proof {
                    lemma_member_step(table, decls@, x as int, k as int);
                }
                match field_target(ctx, decls, x, k) {
                    Some(j) => {
                        if t.is_optional(k) && !ends_with(&nodes[j].parents, x) {
                            add_id(&mut nodes[j].maybe_parents, x);
                        }
                    },
                    None => {},
                }
                k += 1;
            }
            let mut p: usize = 0;
            while p < t.params.len()
                invariant
                    p <= t.params@.len(),
                    x < n,
                    n == decls@.len(),
                    table == ctx@,
                    ctx.well_formed(),
                    t == decls@[x as int].spec,
                    members == t.members().len(),
                    distinct_targets(deps@),
                    deps@ == parameters_upto(table, decls@, x as int, p as nat),
                    forall|s: int| #[trigger]
                        dependency_in(deps@, s) == depends_upto(
                            table,
                            decls@,
                            x as int,
                            s,
                            members as int,
                            p as int,
                            0,
                        ),
                decreases t.params.len() - p,
            {
                proof {
                    lemma_member_step(table, decls@, x as int, p as int);
                }
                let target = param_target(ctx, decls, x, p);
                proof {
                    let linked = linked_param(table, decls@, x as int, p as int);
                    if linked is Some {
                        assert(param_links(table, decls@, x as int, p as int, linked->0));
                    }
                    assert(parameters_upto(table, decls@, x as int, (p + 1) as nat) == match linked {
                        Some(j) => if j != x {
                            with_dependency(deps@, j as usize, DependencyKind::Parameter)
                        } else {
                            deps@
                        },
                        None => deps@,
                    });
                }
                match target {
                    Some(j) => {
                        if j != x {
                            add_dependency(&mut deps, j, DependencyKind::Parameter);
                        }
                    },
                    None => {},
                }
                p += 1;
            }
            let mut k: usize = 0;
            while k < members
                invariant
                    k <= members,
                    x < n,
                    n == decls@.len(),
                    table == ctx@,
                    ctx.well_formed(),
                    t == decls@[x as int].spec,
                    members == t.members().len(),
                    distinct_targets(deps@),
                    deps@ == enums_upto(table, decls@, x as int, k as nat),
                    forall|s: int| #[trigger]
                        dependency_in(deps@, s) == depends_upto(
                            table,
                            decls@,
                            x as int,
                            s,
                            members as int,
                            t.params@.len() as int,
                            k as int,
                        ),
                decreases members - k,
            {
                proof {
                    lemma_member_step(table, decls@, x as int, k as int);
                }
                let target = enum_target(ctx, decls, x, k);
                proof {
                    let linked = linked_enum(table, decls@, x as int, k as int);
                    if linked is Some {
                        assert(enum_links(table, decls@, x as int, k as int, linked->0));
                    }
                    assert(enums_upto(table, decls@, x as int, (k + 1) as nat) == match linked {
                        Some(e) => with_dependency(deps@, e as usize, DependencyKind::EnumReference),
                        None => deps@,
                    });
                }
                match target {
                    Some(e) => {
                        add_dependency(&mut deps, e, DependencyKind::EnumReference);
                    },
                    None => {},
                }
                k += 1;
            }
            nodes[x].depends_on = deps;
            x += 1;
        }
        let g = TypeGraph { nodes, state: ResolutionState::Unvisited };
        proof {
            lemma_built_is_well_formed(g, table, decls@);
        }
        g
    }
}

/// The invariants of the nodes of a graph: in every node the parents and the
/// maybe-parents are types of the graph, each listed once and none in both
/// lists; no type depends on itself; and no obligation stands twice.
pub open spec fn nodes_well_formed(nodes: Seq<Type>) -> bool {
    forall|j: int|
        0 <= j < nodes.len() ==> {
            let node = #[trigger] nodes[j];
            &&& ascending(node.parents@)
            &&& ascending(node.maybe_parents@)
            &&& bounded(node.parents@, nodes.len() - 1)
            &&& bounded(node.maybe_parents@, nodes.len() - 1)
            &&& forall|y: int| !(holds_id(node.parents@, y) && holds_id(node.maybe_parents@, y))
            &&& forall|i: int| 0 <= i < node.depends_on@.len() ==> node.depends_on@[i].on != j
            &&& node.root_obligations.well_formed()
            &&& node.parent_obligations.well_formed()
        }
}

impl TypeGraph {
    /// Whether the graph keeps the invariants of its nodes.
    pub open spec fn well_formed(&self) -> bool {
        nodes_well_formed(self.nodes@)
    }
}

/// A type of which a member is an instance of type `x` is a parent of `x`
/// or a maybe-parent of `x`.
pub proof fn lemma_field_makes_candidate(
    graph: TypeGraph,
    table: Seq<SymbolView>,
    decls: Seq<Declared>,
    a: int,
    k: int,
    x: int,
)
    requires
        graph.shaped_by(table, decls),
        field_links(table, decls, a, k, x),
        0 <= x < decls.len(),
    ensures
        holds_id(graph.nodes@[x].parents@, a) || holds_id(graph.nodes@[x].maybe_parents@, a),
{
    let node = graph.nodes@[x];
    let n = decls[a].spec.members().len() as int;
    if is_parent(table, decls, a, x) {
        assert(holds_id(node.parents@, a));
    } else {
        assert(decls[a].spec.optional(k));
        assert(may_hold_before(table, decls, a, n, x));
        assert(is_maybe_parent(table, decls, a, x));
        assert(holds_id(node.maybe_parents@, a));
    }
}

/// A member that no value lacks makes its type a parent of the type that it
/// is an instance of, and not a maybe-parent.
pub proof fn law_unconditional_member_makes_parent(
    graph: TypeGraph,
    table: Seq<SymbolView>,
    decls: Seq<Declared>,
    x: int,
    k: int,
    j: int,
)
    requires
        graph.shaped_by(table, decls),
        0 <= j < decls.len(),
        field_links(table, decls, x, k, j),
        !decls[x].spec.optional(k),
    ensures
        holds_id(graph.nodes@[j].parents@, x),
        !holds_id(graph.nodes@[j].maybe_parents@, x),
{
    let node = graph.nodes@[j];
    assert(is_parent(table, decls, x, j));
    assert(holds_id(node.parents@, x));
    assert(!is_maybe_parent(table, decls, x, j));
}

/// A member that a value may lack makes its type a maybe-parent of the type
/// that it is an instance of, and not a parent, unless another member of the
/// same type is an instance of it that no value lacks.
pub proof fn law_conditional_member_makes_maybe_parent(
    graph: TypeGraph,
    table: Seq<SymbolView>,
    decls: Seq<Declared>,
    x: int,
    k: int,
    j: int,
)
    requires
        graph.shaped_by(table, decls),
        0 <= j < decls.len(),
        field_links(table, decls, x, k, j),
        decls[x].spec.optional(k),
        forall|k2: int| field_links(table, decls, x, k2, j) ==> decls[x].spec.optional(k2),
    ensures
        holds_id(graph.nodes@[j].maybe_parents@, x),
        !holds_id(graph.nodes@[j].parents@, x),
{
    let node = graph.nodes@[j];
    assert(!is_parent(table, decls, x, j));
    assert(may_hold_before(table, decls, x, decls[x].spec.members().len() as int, j));
    assert(is_maybe_parent(table, decls, x, j));
    assert(holds_id(node.maybe_parents@, x));
}

/// A graph as built keeps the invariants of its nodes.
pub proof fn lemma_built_is_well_formed(
    graph: TypeGraph,
    table: Seq<SymbolView>,
    decls: Seq<Declared>,
)
    requires
        graph.shaped_by(table, decls),
        graph.unobliged(),
    ensures
        graph.well_formed(),
{
    let nodes = graph.nodes@;
    assert forall|j: int| 0 <= j < nodes.len() implies {
        let node = #[trigger] nodes[j];
        &&& ascending(node.parents@)
        &&& ascending(node.maybe_parents@)
        &&& bounded(node.parents@, nodes.len() - 1)
        &&& bounded(node.maybe_parents@, nodes.len() - 1)
        &&& forall|y: int| !(holds_id(node.parents@, y) && holds_id(node.maybe_parents@, y))
        &&& forall|i: int| 0 <= i < node.depends_on@.len() ==> node.depends_on@[i].on != j
        &&& node.root_obligations.well_formed()
        &&& node.parent_obligations.well_formed()
    } by {
        let node = nodes[j];
        assert forall|i: int| 0 <= i < node.parents@.len() implies node.parents@[i] <= nodes.len() - 1 by {
            assert(holds_id(node.parents@, node.parents@[i] as int));
            assert(is_parent(table, decls, node.parents@[i] as int, j));
        }
        assert forall|i: int| 0 <= i < node.maybe_parents@.len() implies node.maybe_parents@[i] <= nodes.len()
            - 1 by {
            assert(holds_id(node.maybe_parents@, node.maybe_parents@[i] as int));
            assert(is_maybe_parent(table, decls, node.maybe_parents@[i] as int, j));
        }
        assert forall|y: int| !(holds_id(node.parents@, y) && holds_id(node.maybe_parents@, y)) by {
            if holds_id(node.parents@, y) && holds_id(node.maybe_parents@, y) {
                assert(is_parent(table, decls, y, j));
                assert(is_maybe_parent(table, decls, y, j));
            }
        }
        assert forall|i: int| 0 <= i < node.depends_on@.len() implies node.depends_on@[i].on != j by {
            if node.depends_on@[i].on == j {
                assert(depends_at(node.depends_on@, i, j));
                assert(dependency_in(node.depends_on@, j) is Some);
                assert(depends(table, decls, j, j) is Some);
            }
        }
    }
}

} // verus!
