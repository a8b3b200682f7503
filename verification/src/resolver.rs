//! The obligation resolver: every request is entered once, in one pass, in
//! the obligations of each type that may have to answer it.

use vstd::prelude::*;
use crate::graph::{
    add_id, ascending, bounded, lemma_field_makes_candidate, holds_id, nodes_well_formed, ResolutionState,
    Type, TypeGraph,
};
use crate::ident::Identifier;
use crate::linking::field_links;
use crate::naming::SymbolView;
use crate::obligation::{merged, stricter, ObligationKind};
use crate::reference::Context;
use crate::request::{
    asks_at, comes_before, genuine, requests_of, scan_requests, slot_rank, Request, Slot,
};
use crate::schema::{countable, Declared, TypeSpec};

verus! {

/// Whether type `t` is a parent or a maybe-parent of the type of `node`.
pub open spec fn candidate(node: Type, t: int) -> bool {
    holds_id(node.parents@, t) || holds_id(node.maybe_parents@, t)
}

/// The names that the first `bound` requests ask of the root.
pub open spec fn root_asked(reqs: Seq<Request>, bound: int) -> Set<Seq<char>> {
    Set::new(
        |v: Seq<char>|
            exists|i: int|
                0 <= i < bound && i < reqs.len() && (#[trigger] reqs[i]).context == Context::Root
                    && reqs[i].name@ == v,
    )
}

/// The names that the first `bound` requests ask of type `t` as a parent:
/// those asked of the parent by a type that `t` is a parent or a maybe-parent
/// of.
pub open spec fn parent_asked(
    reqs: Seq<Request>,
    bound: int,
    nodes: Seq<Type>,
    t: int,
) -> Set<Seq<char>> {
    Set::new(
        |v: Seq<char>|
            exists|i: int|
                0 <= i < bound && i < reqs.len() && (#[trigger] reqs[i]).context == Context::Parent
                    && reqs[i].name@ == v && reqs[i].source < nodes.len() && candidate(
                    nodes[reqs[i].source as int],
                    t,
                ),
    )
}

/// The obligations of type `t` once the names `asked` are asked of it: what
/// it had before stays, each asked name is there, and an asked name has the
/// stricter of the kind it had and the kind under which `t` supplies it.
pub open spec fn obliged(
    had: Map<Seq<char>, ObligationKind>,
    asked: Set<Seq<char>>,
    t: TypeSpec,
) -> Map<Seq<char>, ObligationKind> {
    Map::new(
        |v: Seq<char>| had.contains_key(v) || asked.contains(v),
        |v: Seq<char>|
            if asked.contains(v) {
                if had.contains_key(v) {
                    stricter(had[v], t.supplies(v))
                } else {
                    t.supplies(v)
                }
            } else {
                had[v]
            },
    )
}

/// Asking one more name is one more merge.
pub proof fn lemma_obliged_step(
    had: Map<Seq<char>, ObligationKind>,
    asked: Set<Seq<char>>,
    t: TypeSpec,
    name: Seq<char>,
)
    ensures
        merged(obliged(had, asked, t), name, t.supplies(name)) == obliged(had, asked.insert(name), t),
{
    assert(merged(obliged(had, asked, t), name, t.supplies(name)) =~= obliged(had, asked.insert(name), t));
}

/// What request `i` adds to the names asked.
pub proof fn lemma_asked_step(reqs: Seq<Request>, i: int, nodes: Seq<Type>, t: int)
    requires
        0 <= i < reqs.len(),
        reqs[i].source < nodes.len(),
    ensures
        root_asked(reqs, i + 1) == if reqs[i].context == Context::Root {
            root_asked(reqs, i).insert(reqs[i].name@)
        } else {
            root_asked(reqs, i)
        },
        parent_asked(reqs, i + 1, nodes, t) == if reqs[i].context == Context::Parent && candidate(
            nodes[reqs[i].source as int],
            t,
        ) {
            parent_asked(reqs, i, nodes, t).insert(reqs[i].name@)
        } else {
            parent_asked(reqs, i, nodes, t)
        },
{
    let r = if reqs[i].context == Context::Root {
        root_asked(reqs, i).insert(reqs[i].name@)
    } else {
        root_asked(reqs, i)
    };
    assert forall|v: Seq<char>| root_asked(reqs, i + 1).contains(v) <==> r.contains(v) by {
        if root_asked(reqs, i + 1).contains(v) {
            let w = choose|w: int|
                0 <= w < i + 1 && w < reqs.len() && (#[trigger] reqs[w]).context == Context::Root
                    && reqs[w].name@ == v;
            if w < i {
                assert(root_asked(reqs, i).contains(v));
            }
        }
        if root_asked(reqs, i).contains(v) {
            let w = choose|w: int|
                0 <= w < i && w < reqs.len() && (#[trigger] reqs[w]).context == Context::Root
                    && reqs[w].name@ == v;
            assert(w < i + 1);
        }
        if reqs[i].context == Context::Root && v == reqs[i].name@ {
            assert(root_asked(reqs, i + 1).contains(v));
        }
    }
    assert(root_asked(reqs, i + 1) =~= r);
    let hit = reqs[i].context == Context::Parent && candidate(nodes[reqs[i].source as int], t);
    let p = if hit {
        parent_asked(reqs, i, nodes, t).insert(reqs[i].name@)
    } else {
        parent_asked(reqs, i, nodes, t)
    };
    assert forall|v: Seq<char>| parent_asked(reqs, i + 1, nodes, t).contains(v) <==> p.contains(v) by {
        if parent_asked(reqs, i + 1, nodes, t).contains(v) {
            let w = choose|w: int|
                0 <= w < i + 1 && w < reqs.len() && (#[trigger] reqs[w]).context == Context::Parent
                    && reqs[w].name@ == v && reqs[w].source < nodes.len() && candidate(
                    nodes[reqs[w].source as int],
                    t,
                );
            if w < i {
                assert(parent_asked(reqs, i, nodes, t).contains(v));
            }
        }
        if parent_asked(reqs, i, nodes, t).contains(v) {
            let w = choose|w: int|
                0 <= w < i && w < reqs.len() && (#[trigger] reqs[w]).context == Context::Parent
                    && reqs[w].name@ == v && reqs[w].source < nodes.len() && candidate(
                    nodes[reqs[w].source as int],
                    t,
                );
            assert(w < i + 1);
        }
        if hit && v == reqs[i].name@ {
            assert(parent_asked(reqs, i + 1, nodes, t).contains(v));
        }
    }
    assert(parent_asked(reqs, i + 1, nodes, t) =~= p);
}

/// Whether two nodes differ in their obligations at most.
pub open spec fn same_shape(a: Type, b: Type) -> bool {
    &&& a.symbol == b.symbol
    &&& a.parents == b.parents
    &&& a.maybe_parents == b.maybe_parents
    &&& a.depends_on == b.depends_on
}

/// Whether the nodes `after` are the nodes `before` with nothing changed but
/// obligations.
pub open spec fn shape_kept(before: Seq<Type>, after: Seq<Type>) -> bool {
    &&& after.len() == before.len()
    &&& forall|t: int| 0 <= t < before.len() ==> same_shape(before[t], #[trigger] after[t])
}

/// Whether the root obligations of `after` are those of `before` with the
/// first `i` requests entered: all of them in the first type, which is the
/// root of the compiled schema.
pub open spec fn root_state(
    before: Seq<Type>,
    after: Seq<Type>,
    decls: Seq<Declared>,
    reqs: Seq<Request>,
    i: int,
) -> bool {
    forall|t: int|
        0 <= t < after.len() ==> {
            &&& (#[trigger] after[t]).root_obligations.well_formed()
            &&& after[t].root_obligations@ == if t == 0 {
                obliged(before[0].root_obligations@, root_asked(reqs, i), *decls[0].spec)
            } else {
                before[t].root_obligations@
            }
        }
}

/// Whether the parent obligations of `after` are those of `before` with the
/// first `i` requests entered, and request `i` too in the types of `done`.
pub open spec fn parent_state(
    before: Seq<Type>,
    after: Seq<Type>,
    decls: Seq<Declared>,
    reqs: Seq<Request>,
    i: int,
    done: Set<int>,
) -> bool {
    forall|t: int|
        0 <= t < after.len() ==> {
            &&& (#[trigger] after[t]).parent_obligations.well_formed()
            &&& after[t].parent_obligations@ == obliged(
                before[t].parent_obligations@,
                if done.contains(t) {
                    parent_asked(reqs, i + 1, before, t)
                } else {
                    parent_asked(reqs, i, before, t)
                },
                *decls[t].spec,
            )
        }
}

/// Whether the nodes `after` are the nodes `before` with the first `i`
/// requests entered in their obligations: a request to the root in the root
/// obligations of the first type, a request to the parent in the parent
/// obligations of every parent and maybe-parent of the type that asks.
pub open spec fn discharged(
    before: Seq<Type>,
    after: Seq<Type>,
    decls: Seq<Declared>,
    reqs: Seq<Request>,
    i: int,
) -> bool {
    &&& shape_kept(before, after)
    &&& root_state(before, after, decls, reqs, i)
    &&& parent_state(before, after, decls, reqs, i, Set::empty())
}

/// Whether no type that could answer request `i` declares the value: the
/// root for a request to the root, the parents and maybe-parents of the
/// asking type for a request to the parent. A type without any of them asks
/// its parent in vain.
pub open spec fn dangles(
    reqs: Seq<Request>,
    i: int,
    nodes: Seq<Type>,
    decls: Seq<Declared>,
) -> bool {
    match reqs[i].context {
        Context::Root => !decls[0].spec.declares(reqs[i].name@),
        Context::Parent => forall|t: int|
            0 <= t < nodes.len() && candidate(nodes[reqs[i].source as int], t) ==> !(
            #[trigger] decls[t]).spec.declares(reqs[i].name@),
    }
}

/// Enters one request to the parent in the parent obligations of type `t`,
/// and says whether `t` declares the value.
fn oblige_parent(
    graph: &mut TypeGraph,
    decls: &Vec<Declared>,
    t: usize,
    name: &Identifier,
) -> (declared: bool)
    requires
        t < old(graph).nodes@.len(),
        old(graph).nodes@.len() == decls@.len(),
        countable(decls@),
        old(graph).nodes@[t as int].parent_obligations.well_formed(),
    ensures
        shape_kept(old(graph).nodes@, final(graph).nodes@),
        forall|j: int|
            0 <= j < old(graph).nodes@.len() && j != t ==> #[trigger] final(graph).nodes@[j] == old(
                graph,
            ).nodes@[j],
        final(graph).nodes@[t as int].root_obligations == old(graph).nodes@[t as int].root_obligations,
        final(graph).nodes@[t as int].parent_obligations.well_formed(),
        final(graph).nodes@[t as int].parent_obligations@ == merged(
            old(graph).nodes@[t as int].parent_obligations@,
            name@,
            decls@[t as int].spec.supplies(name@),
        ),
        declared == decls@[t as int].spec.declares(name@),
{
    let (declared, kind) = decls[t].spec.value_kind(name);
    graph.nodes[t].parent_obligations.require(name, kind);
    declared
}

/// The types among the first `c` of `list`, with those of `first`.
spec fn reached(first: Seq<usize>, list: Seq<usize>, c: int) -> Set<int> {
    Set::new(|t: int| holds_id(first, t) || holds_id(list.take(c), t))
}

/// The parents of the type of `node`, or its maybe-parents.
spec fn listed(node: Type, maybe: bool) -> Seq<usize> {
    if maybe {
        node.maybe_parents@
    } else {
        node.parents@
    }
}

/// The types entered before those of `listed`: the parents, once the
/// maybe-parents are entered.
spec fn entered(node: Type, maybe: bool) -> Seq<usize> {
    if maybe {
        node.parents@
    } else {
        Seq::empty()
    }
}

/// Whether one of the first `bound` types of `list` declares `name`.
spec fn declared_among(
    decls: Seq<Declared>,
    list: Seq<usize>,
    bound: int,
    name: Seq<char>,
) -> bool {
    exists|c: int| 0 <= c < bound && c < list.len() && (#[trigger] decls[list[c] as int]).spec.declares(name)
}

impl TypeGraph {
    /// Enters request `i`, which asks the parent, in the parent obligations
    /// of the parents of the type that asks, or of its maybe-parents. Says
    /// whether one of them declares the value.
    fn oblige_each(
        &mut self,
        decls: &Vec<Declared>,
        reqs: &Vec<Request>,
        i: usize,
        maybe: bool,
        Ghost(before): Ghost<Seq<Type>>,
    ) -> (any: bool)
        requires
            i < reqs@.len(),
            reqs@[i as int].context == Context::Parent,
            reqs@[i as int].source < decls@.len(),
            before.len() == decls@.len(),
            countable(decls@),
            old(self).well_formed(),
            shape_kept(before, old(self).nodes@),
            root_state(before, old(self).nodes@, decls@, reqs@, i + 1),
            parent_state(
                before,
                old(self).nodes@,
                decls@,
                reqs@,
                i as int,
                reached(entered(before[reqs@[i as int].source as int], maybe), Seq::empty(), 0),
            ),
        ensures
            final(self).well_formed(),
            shape_kept(before, final(self).nodes@),
            root_state(before, final(self).nodes@, decls@, reqs@, i + 1),
            parent_state(
                before,
                final(self).nodes@,
                decls@,
                reqs@,
                i as int,
                reached(
                    entered(before[reqs@[i as int].source as int], maybe),
                    listed(before[reqs@[i as int].source as int], maybe),
                    listed(before[reqs@[i as int].source as int], maybe).len() as int,
                ),
            ),
            any == declared_among(
                decls@,
                listed(before[reqs@[i as int].source as int], maybe),
                listed(before[reqs@[i as int].source as int], maybe).len() as int,
                reqs@[i as int].name@,
            ),
    {
        let r = &reqs[i];
        let x = r.source;
        let ghost first = entered(before[x as int], maybe);
        let ghost list = listed(before[x as int], maybe);
        let n = if maybe {
            self.nodes[x].maybe_parents.len()
        } else {
            self.nodes[x].parents.len()
        };
        let mut any = false;
        let mut c: usize = 0;
        while c < n
            invariant
                c <= n,
                n == list.len(),
                i < reqs@.len(),
                r == reqs@[i as int],
                r.context == Context::Parent,
                x == r.source,
                x < decls@.len(),
                before.len() == decls@.len(),
                countable(decls@),
                list == listed(before[x as int], maybe),
                first == entered(before[x as int], maybe),
                self.well_formed(),
                shape_kept(before, self.nodes@),
                root_state(before, self.nodes@, decls@, reqs@, i + 1),
                parent_state(before, self.nodes@, decls@, reqs@, i as int, reached(first, list, c as int)),
                any == declared_among(decls@, list, c as int, r.name@),
            decreases n - c,
        {
            let t = if maybe {
                self.nodes[x].maybe_parents[c]
            } else {
                self.nodes[x].parents[c]
            };
            assert(t == list[c as int]);
            assert(t < self.nodes@.len());
            let ghost prev = self.nodes@;
            let ghost done = reached(first, list, c as int);
            let declared = oblige_parent(self, decls, t, &r.name);
            proof {
                let next = reached(first, list, c + 1);
                assert(list.take(c + 1) =~= list.take(c as int).push(t));
                assert(holds_id(list.take(c + 1), t as int)) by {
                    assert(list.take(c + 1)[c as int] == t);
                }
                let l0 = list.take(c as int);
                let l1 = list.take(c + 1);
                assert forall|u: int| next.contains(u) <==> (done.contains(u) || u == t) by {
                    if holds_id(l0, u) {
                        let w = choose|w: int| 0 <= w < l0.len() && l0[w] == u;
                        assert(l1[w] == u);
                    }
                    if holds_id(l1, u) {
                        let w = choose|w: int| 0 <= w < l1.len() && l1[w] == u;
                        if w < c {
                            assert(l0[w] == u);
                        }
                    }
                }
                assert(candidate(before[x as int], t as int)) by {
                    assert(list[c as int] == t);
                }
                lemma_asked_step(reqs@, i as int, before, t as int);
                let asked_now = parent_asked(reqs@, i as int, before, t as int);
                let asked_next = parent_asked(reqs@, i + 1, before, t as int);
                let had = before[t as int].parent_obligations@;
                lemma_obliged_step(had, asked_now, *decls@[t as int].spec, r.name@);
                lemma_obliged_step(had, asked_next, *decls@[t as int].spec, r.name@);
                assert(asked_next.insert(r.name@) =~= asked_next);
                assert forall|u: int| 0 <= u < self.nodes@.len() implies {
                    &&& (#[trigger] self.nodes@[u]).parent_obligations.well_formed()
                    &&& self.nodes@[u].parent_obligations@ == obliged(
                        before[u].parent_obligations@,
                        if next.contains(u) {
                            parent_asked(reqs@, i + 1, before, u)
                        } else {
                            parent_asked(reqs@, i as int, before, u)
                        },
                        *decls@[u].spec,
                    )
                } by {
                    if u != t {
                        assert(self.nodes@[u] == prev[u]);
                    }
                }
                assert forall|u: int| 0 <= u < self.nodes@.len() implies {
                    &&& (#[trigger] self.nodes@[u]).root_obligations.well_formed()
                    &&& self.nodes@[u].root_obligations@ == if u == 0 {
                        obliged(before[0].root_obligations@, root_asked(reqs@, i + 1), *decls@[0].spec)
                    } else {
                        before[u].root_obligations@
                    }
                } by {
                    if u != t {
                        assert(self.nodes@[u] == prev[u]);
                    }
                }
                assert(self.well_formed()) by {
                    assert forall|j: int| 0 <= j < self.nodes@.len() implies {
                        let node = #[trigger] self.nodes@[j];
                        &&& ascending(node.parents@)
                        &&& ascending(node.maybe_parents@)
                        &&& bounded(node.parents@, self.nodes@.len() - 1)
                        &&& bounded(node.maybe_parents@, self.nodes@.len() - 1)
                        &&& forall|y: int| !(holds_id(node.parents@, y) && holds_id(node.maybe_parents@, y))
                        &&& forall|q: int| 0 <= q < node.depends_on@.len() ==> node.depends_on@[q].on != j
                        &&& node.root_obligations.well_formed()
                        &&& node.parent_obligations.well_formed()
                    } by {
                        assert(same_shape(prev[j], self.nodes@[j]));
                        assert(ascending(prev[j].parents@));
                    }
                }
            }
            if declared {
                any = true;
            }
            c += 1;
        }
        assert(list.take(n as int) =~= list);
        any
    }

    /// Enters each request in the obligations of the types that may have to
    /// answer it, one request after the other and each once, and returns the
    /// indices of the requests that no type can answer. The shape of the
    /// graph stays as it is.
    pub fn discharge(
        &mut self,
        decls: &Vec<Declared>,
        reqs: &Vec<Request>,
    ) -> (dangling: Vec<usize>)
        requires
            old(self).well_formed(),
            old(self).nodes@.len() == decls@.len(),
            decls@.len() > 0,
            countable(decls@),
            forall|i: int| 0 <= i < reqs@.len() ==> (#[trigger] reqs@[i]).source < decls@.len(),
        ensures
            final(self).well_formed(),
            discharged(old(self).nodes@, final(self).nodes@, decls@, reqs@, reqs@.len() as int),
            ascending(dangling@),
            forall|i: int| #[trigger]
                holds_id(dangling@, i) <==> (0 <= i < reqs@.len() && dangles(
                    reqs@,
                    i,
                    old(self).nodes@,
                    decls@,
                )),
    {
        let ghost before = self.nodes@;
        let mut dangling: Vec<usize> = Vec::new();
        proof {
            assert forall|t: int| 0 <= t < before.len() implies #[trigger] before[t].parent_obligations@
                == obliged(
                before[t].parent_obligations@,
                parent_asked(reqs@, 0, before, t),
                *decls@[t].spec,
            ) by {
                assert(before[t].parent_obligations@ =~= obliged(
                    before[t].parent_obligations@,
                    parent_asked(reqs@, 0, before, t),
                    *decls@[t].spec,
                ));
            }
            assert(before[0].root_obligations@ =~= obliged(
                before[0].root_obligations@,
                root_asked(reqs@, 0),
                *decls@[0].spec,
            ));
        }
        let mut i: usize = 0;
        while i < reqs.len()
            invariant
                i <= reqs@.len(),
                before.len() == decls@.len(),
                decls@.len() > 0,
                countable(decls@),
                forall|q: int| 0 <= q < reqs@.len() ==> (#[trigger] reqs@[q]).source < decls@.len(),
                nodes_well_formed(before),
                self.well_formed(),
                discharged(before, self.nodes@, decls@, reqs@, i as int),
                ascending(dangling@),
                bounded(dangling@, i as int),
                forall|q: int| #[trigger]
                    holds_id(dangling@, q) <==> (0 <= q < i && dangles(reqs@, q, before, decls@)),
            decreases reqs.len() - i,
        {
            let r = &reqs[i];
            let ghost prev = self.nodes@;
            proof {
                assert forall|t: int|
                    parent_asked(reqs@, i + 1, before, t) == if reqs@[i as int].context == Context::Parent
                        && candidate(before[reqs@[i as int].source as int], t) {
                        parent_asked(reqs@, i as int, before, t).insert(reqs@[i as int].name@)
                    } else {
                        parent_asked(reqs@, i as int, before, t)
                    } by {
                    lemma_asked_step(reqs@, i as int, before, t);
                }
                lemma_asked_step(reqs@, i as int, before, 0);
            }
            let answered = match r.context {
                Context::Root => {
                    let (declared, kind) = decls[0].spec.value_kind(&r.name);
                    self.nodes[0].root_obligations.require(&r.name, kind);
                    proof {
                        lemma_obliged_step(
                            before[0].root_obligations@,
                            root_asked(reqs@, i as int),
                            *decls@[0].spec,
                            r.name@,
                        );
                        assert forall|t: int| 0 <= t < self.nodes@.len() implies same_shape(
                            before[t],
                            #[trigger] self.nodes@[t],
                        ) by {
                            assert(same_shape(before[t], prev[t]));
                        }
                        assert forall|t: int| 0 <= t < self.nodes@.len() implies {
                            &&& (#[trigger] self.nodes@[t]).parent_obligations.well_formed()
                            &&& self.nodes@[t].parent_obligations@ == obliged(
                                before[t].parent_obligations@,
                                parent_asked(reqs@, i + 1, before, t),
                                *decls@[t].spec,
                            )
                        } by {
                            assert(self.nodes@[t].parent_obligations == prev[t].parent_obligations);
                        }
                        assert forall|t: int| 0 <= t < self.nodes@.len() implies {
                            &&& (#[trigger] self.nodes@[t]).root_obligations.well_formed()
                            &&& self.nodes@[t].root_obligations@ == if t == 0 {
                                obliged(before[0].root_obligations@, root_asked(reqs@, i + 1), *decls@[0].spec)
                            } else {
                                before[t].root_obligations@
                            }
                        } by {
                            if t != 0 {
                                assert(self.nodes@[t] == prev[t]);
                            }
                        }
                    }
                    declared
                },
                Context::Parent => {
                    let ghost x = r.source as int;
                    proof {
                        assert(reached(entered(before[x], false), Seq::empty(), 0) =~= Set::<int>::empty());
                    }
                    let any1 = self.oblige_each(decls, reqs, i, false, Ghost(before));
                    proof {
                        assert(reached(entered(before[x], true), Seq::empty(), 0) =~= reached(
                            entered(before[x], false),
                            listed(before[x], false),
                            listed(before[x], false).len() as int,
                        )) by {
                            assert(listed(before[x], false).take(listed(before[x], false).len() as int)
                                =~= listed(before[x], false));
                        }
                    }
                    let any2 = self.oblige_each(decls, reqs, i, true, Ghost(before));
                    proof {
                        let every = reached(
                            entered(before[x], true),
                            listed(before[x], true),
                            listed(before[x], true).len() as int,
                        );
                        assert(listed(before[x], true).take(listed(before[x], true).len() as int) =~= listed(
                            before[x],
                            true,
                        ));
                        assert forall|t: int| every.contains(t) <==> candidate(before[x], t) by {}
                        assert forall|t: int| 0 <= t < self.nodes@.len() implies {
                            &&& (#[trigger] self.nodes@[t]).parent_obligations.well_formed()
                            &&& self.nodes@[t].parent_obligations@ == obliged(
                                before[t].parent_obligations@,
                                parent_asked(reqs@, i + 1, before, t),
                                *decls@[t].spec,
                            )
                        } by {
                            if !every.contains(t) {
                                assert(!candidate(before[x], t));
                            }
                        }
                        let name = r.name@;
                        let l1 = before[x].parents@;
                        let l2 = before[x].maybe_parents@;
                        if any1 || any2 {
                            let list = if any1 {
                                l1
                            } else {
                                l2
                            };
                            let c = choose|c: int|
                                0 <= c < list.len() && c < list.len() && (#[trigger] decls@[list[c] as int]).spec.declares(
                                    name,
                                );
                            let t = list[c] as int;
                            assert(candidate(before[x], t));
                            assert(decls@[t].spec.declares(name));
                            assert(!dangles(reqs@, i as int, before, decls@));
                        } else {
                            assert forall|t: int| 0 <= t < before.len() && candidate(before[x], t) implies !(
                            #[trigger] decls@[t]).spec.declares(name) by {
                                if holds_id(l1, t) {
                                    let c = choose|c: int| 0 <= c < l1.len() && l1[c] == t;
                                    assert(!decls@[l1[c] as int].spec.declares(name));
                                } else {
                                    let c = choose|c: int| 0 <= c < l2.len() && l2[c] == t;
                                    assert(!decls@[l2[c] as int].spec.declares(name));
                                }
                            }
                            assert(dangles(reqs@, i as int, before, decls@));
                        }
                    }
                    any1 || any2
                },
            };
            assert(answered == !dangles(reqs@, i as int, before, decls@));
            if !answered {
                add_id(&mut dangling, i);
            }
            i += 1;
        }
        dangling
    }
}

/// A reference upwards that no type can answer, with the place where it
/// stands.
#[derive(Debug, PartialEq, Eq)]
pub struct DanglingObligation {
    /// The index of the type that holds the member.
    pub in_type: usize,
    /// The index of the member among the members of its type.
    pub member: usize,
    /// The name of the member.
    pub field: Identifier,
    /// The place of the expression in the member.
    pub slot: Slot,
    /// Where in the expression the reference starts.
    pub offset: usize,
    pub context: Context,
    /// The name of the value asked for.
    pub name: Identifier,
}

/// The names that the expressions of `decls` ask of the root.
pub open spec fn root_wanted(decls: Seq<Declared>) -> Set<Seq<char>> {
    Set::new(
        |v: Seq<char>|
            exists|x: int, k: int, s: Slot, o: int| #[trigger] asks_at(decls, x, k, s, o, Context::Root, v),
    )
}

/// The names that the expressions of `decls` ask of type `t` as a parent:
/// those that a type asks of its parent of which `t` is a parent or a
/// maybe-parent.
pub open spec fn parent_wanted(decls: Seq<Declared>, nodes: Seq<Type>, t: int) -> Set<Seq<char>> {
    Set::new(
        |v: Seq<char>|
            exists|x: int, k: int, s: Slot, o: int| #[trigger]
                asks_at(decls, x, k, s, o, Context::Parent, v) && x < nodes.len() && candidate(nodes[x], t),
    )
}

/// Whether the nodes `after` are the nodes `before` after obligation
/// resolution over `decls`: the shape is kept; the first type, the root of
/// the compiled schema, is obliged to supply what any expression asks of the
/// root; and every type is obliged to supply what the types that it is a
/// parent or maybe-parent of ask of their parent.
pub open spec fn resolved(before: Seq<Type>, after: Seq<Type>, decls: Seq<Declared>) -> bool {
    &&& shape_kept(before, after)
    &&& forall|t: int|
        0 <= t < after.len() ==> {
            &&& (#[trigger] after[t]).root_obligations.well_formed()
            &&& after[t].parent_obligations.well_formed()
            &&& after[t].root_obligations@ == if t == 0 {
                obliged(before[0].root_obligations@, root_wanted(decls), *decls[0].spec)
            } else {
                before[t].root_obligations@
            }
            &&& after[t].parent_obligations@ == obliged(
                before[t].parent_obligations@,
                parent_wanted(decls, before, t),
                *decls[t].spec,
            )
        }
}

/// The requests of `decls` ask what its expressions ask.
pub proof fn lemma_requests_cover(
    reqs: Seq<Request>,
    decls: Seq<Declared>,
    nodes: Seq<Type>,
    t: int,
)
    requires
        requests_of(reqs, decls),
        nodes.len() == decls.len(),
    ensures
        root_asked(reqs, reqs.len() as int) == root_wanted(decls),
        parent_asked(reqs, reqs.len() as int, nodes, t) == parent_wanted(decls, nodes, t),
{
    let n = reqs.len() as int;
    assert forall|v: Seq<char>| root_asked(reqs, n).contains(v) <==> root_wanted(decls).contains(v) by {
        if root_asked(reqs, n).contains(v) {
            let i = choose|i: int|
                0 <= i < n && i < reqs.len() && (#[trigger] reqs[i]).context == Context::Root && reqs[i].name@
                    == v;
            assert(genuine(reqs[i], decls));
            assert(asks_at(
                decls,
                reqs[i].source as int,
                reqs[i].member as int,
                reqs[i].slot,
                reqs[i].offset as int,
                Context::Root,
                v,
            ));
        }
        if root_wanted(decls).contains(v) {
            let (x, k, s, o) = choose|x: int, k: int, s: Slot, o: int| #[trigger]
                asks_at(decls, x, k, s, o, Context::Root, v);
            assert(comes_before(x, k, slot_rank(s), o, decls.len() as int, 0, 0, 0));
            let i = choose|i: int|
                0 <= i < reqs.len() && (#[trigger] reqs[i]).source == x && reqs[i].member == k && reqs[i].slot
                    == s && reqs[i].offset == o && reqs[i].context == Context::Root && reqs[i].name@ == v;
            assert(0 <= i < n && reqs[i].context == Context::Root && reqs[i].name@ == v);
        }
    }
    assert(root_asked(reqs, n) =~= root_wanted(decls));
    assert forall|v: Seq<char>|
        parent_asked(reqs, n, nodes, t).contains(v) <==> parent_wanted(decls, nodes, t).contains(v) by {
        if parent_asked(reqs, n, nodes, t).contains(v) {
            let i = choose|i: int|
                0 <= i < n && i < reqs.len() && (#[trigger] reqs[i]).context == Context::Parent
                    && reqs[i].name@ == v && reqs[i].source < nodes.len() && candidate(
                    nodes[reqs[i].source as int],
                    t,
                );
            assert(genuine(reqs[i], decls));
            assert(asks_at(
                decls,
                reqs[i].source as int,
                reqs[i].member as int,
                reqs[i].slot,
                reqs[i].offset as int,
                Context::Parent,
                v,
            ));
        }
        if parent_wanted(decls, nodes, t).contains(v) {
            let (x, k, s, o) = choose|x: int, k: int, s: Slot, o: int| #[trigger]
                asks_at(decls, x, k, s, o, Context::Parent, v) && x < nodes.len() && candidate(nodes[x], t);
            assert(comes_before(x, k, slot_rank(s), o, decls.len() as int, 0, 0, 0));
            let i = choose|i: int|
                0 <= i < reqs.len() && (#[trigger] reqs[i]).source == x && reqs[i].member == k && reqs[i].slot
                    == s && reqs[i].offset == o && reqs[i].context == Context::Parent && reqs[i].name@ == v;
            assert(0 <= i < n && reqs[i].context == Context::Parent && reqs[i].name@ == v && candidate(
                nodes[reqs[i].source as int],
                t,
            ));
        }
    }
    assert(parent_asked(reqs, n, nodes, t) =~= parent_wanted(decls, nodes, t));
}

/// Whether `decls` holds at the given place a reference that no type can
/// answer: for a reference to the root, the first type does not declare the
/// value; for a reference to the parent, no parent or maybe-parent of the
/// asking type declares it.
pub open spec fn left_dangling(
    decls: Seq<Declared>,
    nodes: Seq<Type>,
    x: int,
    k: int,
    s: Slot,
    o: int,
    context: Context,
    name: Seq<char>,
) -> bool {
    &&& asks_at(decls, x, k, s, o, context, name)
    &&& match context {
        Context::Root => !decls[0].spec.declares(name),
        Context::Parent => forall|t: int|
            0 <= t < nodes.len() && candidate(nodes[x], t) ==> !(#[trigger] decls[t]).spec.declares(name),
    }
}

/// Whether `errors` holds the references of `decls` that no type can answer:
/// each true and with the name of its member, in reading order, none left
/// out.
pub open spec fn reports_dangling(
    errors: Seq<DanglingObligation>,
    nodes: Seq<Type>,
    decls: Seq<Declared>,
) -> bool {
    &&& forall|i: int|
        0 <= i < errors.len() ==> {
            let e = #[trigger] errors[i];
            &&& left_dangling(
                decls,
                nodes,
                e.in_type as int,
                e.member as int,
                e.slot,
                e.offset as int,
                e.context,
                e.name@,
            )
            &&& e.field@ == decls[e.in_type as int].spec.members()[e.member as int].id@
        }
    &&& forall|a: int, b: int|
        0 <= a < b < errors.len() ==> comes_before(
            (#[trigger] errors[a]).in_type as int,
            errors[a].member as int,
            slot_rank(errors[a].slot),
            errors[a].offset as int,
            (#[trigger] errors[b]).in_type as int,
            errors[b].member as int,
            slot_rank(errors[b].slot),
            errors[b].offset as int,
        )
    &&& forall|x: int, k: int, s: Slot, o: int, context: Context, name: Seq<char>| #[trigger]
        left_dangling(decls, nodes, x, k, s, o, context, name) ==> exists|i: int|
            0 <= i < errors.len() && (#[trigger] errors[i]).in_type == x && errors[i].member == k
                && errors[i].slot == s && errors[i].offset == o && errors[i].context == context
                && errors[i].name@ == name
}

impl TypeGraph {
    /// Obligation resolution: reads every expression of `decls` once and
    /// enters each reference upwards in the obligations of the types that may
    /// have to answer it. The references that no type can answer are all
    /// returned together; the obligations are entered even so, and the graph
    /// is then left in progress and not resolved.
    pub fn resolve_obligations(&mut self, decls: &Vec<Declared>) -> (r: Result<
        (),
        Vec<DanglingObligation>,
    >)
        requires
            old(self).well_formed(),
            old(self).nodes@.len() == decls@.len(),
            decls@.len() > 0,
            countable(decls@),
        ensures
            final(self).well_formed(),
            resolved(old(self).nodes@, final(self).nodes@, decls@),
            match r {
                Ok(_) => reports_dangling(Seq::empty(), old(self).nodes@, decls@) && final(self).state
                    == ResolutionState::Resolved,
                Err(errors) => errors@.len() > 0 && reports_dangling(errors@, old(self).nodes@, decls@)
                    && final(self).state == ResolutionState::InProgress,
            },
    {
        let ghost before = self.nodes@;
        let reqs = scan_requests(decls);
        assert forall|i: int| 0 <= i < reqs@.len() implies (#[trigger] reqs@[i]).source < decls@.len() by {
            assert(genuine(reqs@[i], decls@));
        }
        let dangling = self.discharge(decls, &reqs);
        proof {
            assert forall|t: int| 0 <= t < before.len() implies root_asked(reqs@, reqs@.len() as int)
                == root_wanted(decls@) && #[trigger] parent_asked(reqs@, reqs@.len() as int, before, t)
                == parent_wanted(decls@, before, t) by {
                lemma_requests_cover(reqs@, decls@, before, t);
            }
            lemma_requests_cover(reqs@, decls@, before, 0);
            assert forall|t: int| 0 <= t < self.nodes@.len() implies {
                &&& (#[trigger] self.nodes@[t]).root_obligations.well_formed()
                &&& self.nodes@[t].parent_obligations.well_formed()
                &&& self.nodes@[t].root_obligations@ == if t == 0 {
                    obliged(before[0].root_obligations@, root_wanted(decls@), *decls@[0].spec)
                } else {
                    before[t].root_obligations@
                }
                &&& self.nodes@[t].parent_obligations@ == obliged(
                    before[t].parent_obligations@,
                    parent_wanted(decls@, before, t),
                    *decls@[t].spec,
                )
            } by {
                assert(parent_asked(reqs@, reqs@.len() as int, before, t) == parent_wanted(decls@, before, t));
            }
        }
        assert forall|q: int| 0 <= q < dangling@.len() implies 0 <= #[trigger] dangling@[q]
            < reqs@.len() by {
            assert(holds_id(dangling@, dangling@[q] as int));
        }
        let mut errors: Vec<DanglingObligation> = Vec::new();
        let mut c: usize = 0;
        while c < dangling.len()
            invariant
                c <= dangling@.len(),
                errors@.len() == c,
                requests_of(reqs@, decls@),
                countable(decls@),
                forall|q: int| 0 <= q < dangling@.len() ==> 0 <= #[trigger] dangling@[q] < reqs@.len(),
                forall|q: int|
                    0 <= q < c ==> {
                        let e = #[trigger] errors@[q];
                        let r = reqs@[dangling@[q] as int];
                        &&& e.in_type == r.source
                        &&& e.member == r.member
                        &&& e.slot == r.slot
                        &&& e.offset == r.offset
                        &&& e.context == r.context
                        &&& e.name@ == r.name@
                        &&& e.field@ == decls@[r.source as int].spec.members()[r.member as int].id@
                    },
            decreases dangling.len() - c,
        {
            let d = dangling[c];
            let r = &reqs[d];
            assert(genuine(*r, decls@));
            let e = DanglingObligation {
                in_type: r.source,
                member: r.member,
                field: decls[r.source].spec.member(r.member).id.clone(),
                slot: r.slot,
                offset: r.offset,
                context: r.context,
                name: r.name.clone(),
            };
            errors.push(e);
            c += 1;
        }
        proof {
            assert forall|i: int| 0 <= i < errors@.len() implies {
                let e = #[trigger] errors@[i];
                &&& left_dangling(
                    decls@,
                    before,
                    e.in_type as int,
                    e.member as int,
                    e.slot,
                    e.offset as int,
                    e.context,
                    e.name@,
                )
                &&& e.field@ == decls@[e.in_type as int].spec.members()[e.member as int].id@
            } by {
                let d = dangling@[i] as int;
                assert(holds_id(dangling@, d));
                assert(dangles(reqs@, d, before, decls@));
                assert(genuine(reqs@[d], decls@));
            }
            assert forall|a: int, b: int| 0 <= a < b < errors@.len() implies comes_before(
                (#[trigger] errors@[a]).in_type as int,
                errors@[a].member as int,
                slot_rank(errors@[a].slot),
                errors@[a].offset as int,
                (#[trigger] errors@[b]).in_type as int,
                errors@[b].member as int,
                slot_rank(errors@[b].slot),
                errors@[b].offset as int,
            ) by {
                let da = dangling@[a] as int;
                let db = dangling@[b] as int;
                assert(da < db);
                assert(errors@[a].offset == reqs@[da].offset);
                assert(errors@[b].offset == reqs@[db].offset);
            }
            assert forall|x: int, k: int, s: Slot, o: int, context: Context, name: Seq<char>| #[trigger]
                left_dangling(decls@, before, x, k, s, o, context, name) implies exists|i: int|
                0 <= i < errors@.len() && (#[trigger] errors@[i]).in_type == x && errors@[i].member == k
                    && errors@[i].slot == s && errors@[i].offset == o && errors@[i].context == context
                    && errors@[i].name@ == name by {
                assert(asks_at(decls@, x, k, s, o, context, name));
                assert(comes_before(x, k, slot_rank(s), o, decls@.len() as int, 0, 0, 0));
                let d = choose|d: int|
                    0 <= d < reqs@.len() && (#[trigger] reqs@[d]).source == x && reqs@[d].member == k
                        && reqs@[d].slot == s && reqs@[d].offset == o && reqs@[d].context == context
                        && reqs@[d].name@ == name;
                assert(dangles(reqs@, d, before, decls@));
                assert(holds_id(dangling@, d));
                let i = choose|i: int| 0 <= i < dangling@.len() && dangling@[i] == d;
                let e = errors@[i];
                assert(e.in_type == x);
            }
        }
        if errors.len() == 0 {
            assert(errors@ =~= Seq::<DanglingObligation>::empty());
            self.state = ResolutionState::Resolved;
            Ok(())
        } else {
            self.state = ResolutionState::InProgress;
            Err(errors)
        }
    }
}

/// What the expressions ask of a parent depends on the shape of the graph
/// alone.
pub proof fn lemma_wanted_by_shape(decls: Seq<Declared>, a: Seq<Type>, b: Seq<Type>, t: int)
    requires
        shape_kept(a, b),
    ensures
        parent_wanted(decls, a, t) == parent_wanted(decls, b, t),
{
    assert forall|v: Seq<char>| parent_wanted(decls, a, t).contains(v) <==> parent_wanted(decls, b, t).contains(
        v,
    ) by {
        if parent_wanted(decls, a, t).contains(v) {
            let (x, k, s, o) = choose|x: int, k: int, s: Slot, o: int| #[trigger]
                asks_at(decls, x, k, s, o, Context::Parent, v) && x < a.len() && candidate(a[x], t);
            assert(same_shape(a[x], b[x]));
            assert(asks_at(decls, x, k, s, o, Context::Parent, v) && x < b.len() && candidate(b[x], t));
        }
        if parent_wanted(decls, b, t).contains(v) {
            let (x, k, s, o) = choose|x: int, k: int, s: Slot, o: int| #[trigger]
                asks_at(decls, x, k, s, o, Context::Parent, v) && x < b.len() && candidate(b[x], t);
            assert(same_shape(a[x], b[x]));
            assert(asks_at(decls, x, k, s, o, Context::Parent, v) && x < a.len() && candidate(a[x], t));
        }
    }
    assert(parent_wanted(decls, a, t) =~= parent_wanted(decls, b, t));
}

/// Where one reference dangles and no other, one error is reported, and it
/// names the value that the reference asks for.
pub proof fn law_one_dangling_reference_one_error(
    errors: Seq<DanglingObligation>,
    nodes: Seq<Type>,
    decls: Seq<Declared>,
    x: int,
    k: int,
    s: Slot,
    o: int,
    context: Context,
    name: Seq<char>,
)
    requires
        reports_dangling(errors, nodes, decls),
        left_dangling(decls, nodes, x, k, s, o, context, name),
        forall|x2: int, k2: int, s2: Slot, o2: int, c2: Context, n2: Seq<char>| #[trigger]
            left_dangling(decls, nodes, x2, k2, s2, o2, c2, n2) ==> x2 == x && k2 == k && s2 == s && o2 == o,
    ensures
        errors.len() == 1,
        errors[0].name@ == name,
        errors[0].context == context,
        errors[0].in_type == x,
        errors[0].member == k,
{
    let i = choose|i: int|
        0 <= i < errors.len() && (#[trigger] errors[i]).in_type == x && errors[i].member == k
            && errors[i].slot == s && errors[i].offset == o && errors[i].context == context
            && errors[i].name@ == name;
    assert forall|a: int| 0 <= a < errors.len() implies (#[trigger] errors[a]).in_type == x && errors[a].member
        == k && errors[a].slot == s && errors[a].offset == o by {
        let e = errors[a];
        assert(left_dangling(
            decls,
            nodes,
            e.in_type as int,
            e.member as int,
            e.slot,
            e.offset as int,
            e.context,
            e.name@,
        ));
    }
    if errors.len() > 1 {
        let a = errors[0];
        let b = errors[1];
        assert(comes_before(
            a.in_type as int,
            a.member as int,
            slot_rank(a.slot),
            a.offset as int,
            b.in_type as int,
            b.member as int,
            slot_rank(b.slot),
            b.offset as int,
        ));
    }
    assert(i == 0);
}

/// Obligation resolution takes no obligation away and weakens none: what a
/// type had to supply before it has to supply after, under a kind at least as
/// strict.
pub proof fn law_obligations_only_grow(
    before: Seq<Type>,
    after: Seq<Type>,
    decls: Seq<Declared>,
    t: int,
    v: Seq<char>,
)
    requires
        resolved(before, after, decls),
        0 <= t < after.len(),
    ensures
        before[t].root_obligations@.contains_key(v) ==> after[t].root_obligations@.contains_key(v)
            && after[t].root_obligations@[v] == stricter(
            before[t].root_obligations@[v],
            after[t].root_obligations@[v],
        ),
        before[t].parent_obligations@.contains_key(v) ==> after[t].parent_obligations@.contains_key(v)
            && after[t].parent_obligations@[v] == stricter(
            before[t].parent_obligations@[v],
            after[t].parent_obligations@[v],
        ),
{
    let node = after[t];
    assert(node.parent_obligations@ == obliged(
        before[t].parent_obligations@,
        parent_wanted(decls, before, t),
        *decls[t].spec,
    ));
}

/// Obligation resolution run a second time changes nothing: the obligations
/// after the second run are those after the first.
pub proof fn law_resolution_is_idempotent(
    start: Seq<Type>,
    once: Seq<Type>,
    twice: Seq<Type>,
    decls: Seq<Declared>,
)
    requires
        resolved(start, once, decls),
        resolved(once, twice, decls),
    ensures
        forall|t: int|
            0 <= t < twice.len() ==> (#[trigger] twice[t]).root_obligations@ == once[t].root_obligations@
                && twice[t].parent_obligations@ == once[t].parent_obligations@,
{
    assert forall|t: int| 0 <= t < twice.len() implies (#[trigger] twice[t]).root_obligations@
        == once[t].root_obligations@ && twice[t].parent_obligations@ == once[t].parent_obligations@ by {
        assert(same_shape(start[t], once[t]));
        lemma_wanted_by_shape(decls, start, once, t);
        let asked = parent_wanted(decls, start, t);
        let had = start[t].parent_obligations@;
        assert(obliged(obliged(had, asked, *decls[t].spec), asked, *decls[t].spec) =~= obliged(
            had,
            asked,
            *decls[t].spec,
        ));
        if t == 0 {
            let had0 = start[0].root_obligations@;
            let asked0 = root_wanted(decls);
            assert(obliged(obliged(had0, asked0, *decls[0].spec), asked0, *decls[0].spec) =~= obliged(
                had0,
                asked0,
                *decls[0].spec,
            ));
        }
    }
}

/// What a type asks of its parent is asked of every type that holds it: where
/// members of the types `a` and `b` are instances of type `x`, and an
/// expression of `x` refers to the value `name` of the parent, resolution
/// leaves `name` among the parent obligations of `a` and among those of `b`.
pub proof fn law_request_reaches_every_parent(
    graph: TypeGraph,
    after: Seq<Type>,
    table: Seq<SymbolView>,
    decls: Seq<Declared>,
    a: int,
    ka: int,
    b: int,
    kb: int,
    x: int,
    k: int,
    s: Slot,
    o: int,
    name: Seq<char>,
)
    requires
        graph.shaped_by(table, decls),
        resolved(graph.nodes@, after, decls),
        field_links(table, decls, a, ka, x),
        field_links(table, decls, b, kb, x),
        asks_at(decls, x, k, s, o, Context::Parent, name),
    ensures
        after[a].parent_obligations@.contains_key(name),
        after[b].parent_obligations@.contains_key(name),
        decls[a].spec.supplies(name) == ObligationKind::Computed ==> after[a].parent_obligations@[name]
            == ObligationKind::Computed,
        decls[b].spec.supplies(name) == ObligationKind::Computed ==> after[b].parent_obligations@[name]
            == ObligationKind::Computed,
{
    lemma_field_makes_candidate(graph, table, decls, a, ka, x);
    lemma_field_makes_candidate(graph, table, decls, b, kb, x);
    assert(candidate(graph.nodes@[x], a));
    assert(candidate(graph.nodes@[x], b));
    assert(parent_wanted(decls, graph.nodes@, a).contains(name));
    assert(parent_wanted(decls, graph.nodes@, b).contains(name));
}

} // verus!
