//! Obligations: the values that a type has to supply to the types below it,
//! and how each has to be supplied.

use vstd::prelude::*;
use crate::ident::Identifier;
use crate::schema::TypeSpec;

verus! {

/// How an ancestor has to supply a value.
#[derive(Debug, Clone, Copy, PartialEq, Eq, Structural)]
pub enum ObligationKind {
    /// The value is a field that is always read.
    Plain,
    /// The value is only there on a condition, or is computed on demand.
    Computed,
}

/// The stricter of two kinds: `Computed` wins over `Plain`.
pub open spec fn stricter(a: ObligationKind, b: ObligationKind) -> ObligationKind {
    if a == ObligationKind::Computed || b == ObligationKind::Computed {
        ObligationKind::Computed
    } else {
        ObligationKind::Plain
    }
}

pub fn stricter_of(a: ObligationKind, b: ObligationKind) -> (r: ObligationKind)
    ensures
        r == stricter(a, b),
{
    match (a, b) {
        (ObligationKind::Plain, ObligationKind::Plain) => ObligationKind::Plain,
        _ => ObligationKind::Computed,
    }
}

/// One value that has to be supplied.
#[derive(Debug, PartialEq, Eq)]
pub struct Obligation {
    pub name: Identifier,
    pub kind: ObligationKind,
}

/// The values that one type has to supply, each under its name once.
#[derive(Debug, PartialEq, Eq)]
pub struct ObligationSet {
    pub entries: Vec<Obligation>,
}

/// What a set of obligations comes to after one more request for `name`: the
/// entry is there, with the stricter of the kind it had and `kind`.
pub open spec fn merged(
    set: Map<Seq<char>, ObligationKind>,
    name: Seq<char>,
    kind: ObligationKind,
) -> Map<Seq<char>, ObligationKind> {
    if set.contains_key(name) {
        set.insert(name, stricter(set[name], kind))
    } else {
        set.insert(name, kind)
    }
}

impl ObligationSet {
    /// Whether entry `i` is the obligation for `name`.
    pub open spec fn names_at(&self, i: int, name: Seq<char>) -> bool {
        0 <= i < self.entries@.len() && self.entries@[i].name@ == name
    }

    /// No name has two entries.
    pub open spec fn well_formed(&self) -> bool {
        forall|i: int, j: int|
            0 <= i < self.entries@.len() && 0 <= j < self.entries@.len()
                && self.entries@[i].name@ == self.entries@[j].name@ ==> i == j
    }

    /// An empty set.
    pub fn new() -> (s: ObligationSet)
        ensures
            s.well_formed(),
            s@ == Map::<Seq<char>, ObligationKind>::empty(),
            s.entries@.len() == 0,
    {
        let s = ObligationSet { entries: Vec::new() };
        assert(s@ =~= Map::<Seq<char>, ObligationKind>::empty());
        s
    }

    /// The index of the entry for `name`.
    pub fn position(&self, name: &Identifier) -> (r: Option<usize>)
        ensures
            match r {
                Some(i) => self.names_at(i as int, name@),
                None => !self@.contains_key(name@),
            },
    {
        let mut i: usize = 0;
        while i < self.entries.len()
            invariant
                i <= self.entries.len(),
                forall|j: int| 0 <= j < i ==> !self.names_at(j, name@),
            decreases self.entries.len() - i,
        {
            if self.entries[i].name.same(name) {
                return Some(i);
            }
            i += 1;
        }
        None
    }

    /// The kind under which `name` has to be supplied, if it has to be.
    pub fn get(&self, name: &Identifier) -> (r: Option<ObligationKind>)
        requires
            self.well_formed(),
        ensures
            match r {
                Some(kind) => self@.contains_key(name@) && self@[name@] == kind,
                None => !self@.contains_key(name@),
            },
    {
        match self.position(name) {
            Some(i) => {
                proof {
                    let c = choose|j: int| self.names_at(j, name@);
                    assert(c == i);
                }
                Some(self.entries[i].kind)
            },
            None => None,
        }
    }

    /// Records that `name` has to be supplied under `kind`. A name that is
    /// already there keeps its one entry, with the stricter kind.
    pub fn require(&mut self, name: &Identifier, kind: ObligationKind)
        requires
            old(self).well_formed(),
        ensures
            final(self).well_formed(),
            final(self)@ == merged(old(self)@, name@, kind),
    {
        let ghost before = *self;
        match self.position(name) {
            Some(i) => {
                let had = self.entries[i].kind;
                let now = stricter_of(had, kind);
                self.entries.set(i, Obligation { name: name.clone(), kind: now });
                proof {
                    let c = choose|j: int| before.names_at(j, name@);
                    assert(c == i);
                    assert forall|n: Seq<char>, j: int| self.names_at(j, n) <==> before.names_at(j, n) by {
                        if 0 <= j < self.entries@.len() {
                            if j != i {
                                assert(self.entries@[j] == before.entries@[j]);
                            }
                        }
                    }
                    assert forall|n: Seq<char>| #[trigger]
                        self@.contains_key(n) <==> merged(before@, name@, kind).contains_key(n) by {
                        if before@.contains_key(n) {
                            let j = choose|j: int| before.names_at(j, n);
                            assert(self.names_at(j, n));
                        }
                        if self@.contains_key(n) {
                            let j = choose|j: int| self.names_at(j, n);
                            assert(before.names_at(j, n));
                        }
                    }
                    assert forall|n: Seq<char>| #[trigger] self@.contains_key(n) implies self@[n] == merged(
                        before@,
                        name@,
                        kind,
                    )[n] by {
                        let j = choose|j: int| self.names_at(j, n);
                        assert(before.names_at(j, n));
                        let jb = choose|j: int| before.names_at(j, n);
                        assert(jb == j);
                        if j != i {
                            assert(self.entries@[j] == before.entries@[j]);
                        }
                    }
                    assert forall|a: int, b: int|
                        0 <= a < self.entries@.len() && 0 <= b < self.entries@.len()
                            && self.entries@[a].name@ == self.entries@[b].name@ implies a == b by {
                        let n = self.entries@[a].name@;
                        assert(self.names_at(a, n) && self.names_at(b, n));
                        assert(before.names_at(a, n) || a == before.entries@.len());
                        assert(before.names_at(b, n) || b == before.entries@.len());
                    }
                    assert(self@ =~= merged(before@, name@, kind));
                }
            },
            None => {
                self.entries.push(Obligation { name: name.clone(), kind });
                proof {
                    let last = before.entries@.len() as int;
                    assert forall|n: Seq<char>, j: int| self.names_at(j, n) <==> (before.names_at(j, n) || (j
                        == last && n == name@)) by {
                        if 0 <= j < last {
                            assert(self.entries@[j] == before.entries@[j]);
                        }
                    }
                    assert(self.names_at(last, name@));
                    assert forall|n: Seq<char>| #[trigger]
                        self@.contains_key(n) <==> merged(before@, name@, kind).contains_key(n) by {
                        if before@.contains_key(n) {
                            let j = choose|j: int| before.names_at(j, n);
                            assert(self.names_at(j, n));
                        }
                        if self@.contains_key(n) {
                            let j = choose|j: int| self.names_at(j, n);
                            assert(before.names_at(j, n) || n == name@);
                        }
                    }
                    assert forall|n: Seq<char>| #[trigger] self@.contains_key(n) implies self@[n] == merged(
                        before@,
                        name@,
                        kind,
                    )[n] by {
                        let j = choose|j: int| self.names_at(j, n);
                        if n == name@ {
                            assert(!before.names_at(j, n));
                            assert(j == last);
                        } else {
                            assert(before.names_at(j, n));
                            let jb = choose|j: int| before.names_at(j, n);
                            assert(jb == j);
                            assert(self.entries@[j] == before.entries@[j]);
                        }
                    }
                    assert forall|a: int, b: int|
                        0 <= a < self.entries@.len() && 0 <= b < self.entries@.len()
                            && self.entries@[a].name@ == self.entries@[b].name@ implies a == b by {
                        let n = self.entries@[a].name@;
                        assert(self.names_at(a, n) && self.names_at(b, n));
                        assert(before.names_at(a, n) || a == before.entries@.len());
                        assert(before.names_at(b, n) || b == before.entries@.len());
                    }
                    assert(self@ =~= merged(before@, name@, kind));
                }
            },
        }
    }
}

impl View for ObligationSet {
    type V = Map<Seq<char>, ObligationKind>;

    open spec fn view(&self) -> Map<Seq<char>, ObligationKind> {
        Map::new(
            |name: Seq<char>| exists|i: int| self.names_at(i, name),
            |name: Seq<char>| self.entries@[choose|i: int| self.names_at(i, name)].kind,
        )
    }
}

impl TypeSpec {
    /// Whether the type declares a value called `name`: a field, an instance
    /// or a parameter.
    pub open spec fn declares(&self, name: Seq<char>) -> bool {
        ||| exists|k: int| 0 <= k < self.members().len() && #[trigger] self.members()[k].id@ == name
        ||| exists|p: int| 0 <= p < self.params@.len() && #[trigger] self.params@[p].id@ == name
    }

    /// Whether member `k` is called `name` and is only there on a condition
    /// of its own or computed on demand.
    pub open spec fn computes_at(&self, k: int, name: Seq<char>) -> bool {
        &&& 0 <= k < self.members().len()
        &&& self.members()[k].id@ == name
        &&& (self.computed(k) || self.members()[k].if_cond is Some)
    }

    /// How the type supplies the value called `name`: `Computed` where a
    /// member of that name is an instance or carries a condition, else
    /// `Plain`.
    pub open spec fn supplies(&self, name: Seq<char>) -> ObligationKind {
        if exists|k: int| self.computes_at(k, name) {
            ObligationKind::Computed
        } else {
            ObligationKind::Plain
        }
    }

    /// Whether the type declares `name`, and how it supplies it.
    pub fn value_kind(&self, name: &Identifier) -> (r: (bool, ObligationKind))
        requires
            self.fields@.len() + self.instances@.len() <= usize::MAX,
        ensures
            r.0 == self.declares(name@),
            r.1 == self.supplies(name@),
    {
        let mut found = false;
        let mut kind = ObligationKind::Plain;
        let n = self.member_count();
        let mut k: usize = 0;
        while k < n
            invariant
                k <= n,
                n == self.members().len(),
                found == (exists|j: int| 0 <= j < k && #[trigger] self.members()[j].id@ == name@),
                kind == ObligationKind::Computed <==> (exists|j: int| j < k && self.computes_at(j, name@)),
                kind == ObligationKind::Computed || kind == ObligationKind::Plain,
            decreases n - k,
        {
            let f = self.member(k);
            if f.id.same(name) {
                found = true;
                if k >= self.fields.len() || f.if_cond.is_some() {
                    assert(self.computes_at(k as int, name@));
                    kind = ObligationKind::Computed;
                }
            }
            k += 1;
        }
        let mut p: usize = 0;
        let ghost in_members = found;
        while p < self.params.len()
            invariant
                p <= self.params.len(),
                found == (in_members || exists|j: int| 0 <= j < p && #[trigger] self.params@[j].id@ == name@),
            decreases self.params.len() - p,
        {
            if self.params[p].id.same(name) {
                found = true;
            }
            p += 1;
        }
        (found, kind)
    }
}

} // verus!
