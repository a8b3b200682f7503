//! The requests that the expressions of a schema make upwards: each
//! reference to a value of the root or of the parent, with the place where
//! it stands.

use vstd::prelude::*;
use crate::ident::Identifier;
use crate::reference::{find_references, lists_references, refers_at, Context};
use crate::schema::{countable, Declared, FieldSpec, RepeatSpec};
use crate::text::{bytes_as_chars, chars_of_bytes, to_chars};

verus! {

/// A place of a member that holds an expression.
#[derive(Debug, Clone, Copy, PartialEq, Eq, Structural)]
pub enum Slot {
    /// The condition on which the member is there.
    Condition,
    /// The size of the member.
    Size,
    /// How often the member is repeated, or until when.
    Repeat,
    /// The fixed contents of the member.
    Contents,
}

/// The four places in the order in which a member is read.
pub open spec fn slot_rank(slot: Slot) -> int {
    match slot {
        Slot::Condition => 0,
        Slot::Size => 1,
        Slot::Repeat => 2,
        Slot::Contents => 3,
    }
}

/// The text in place `slot` of a member, if it has one there. The fixed
/// contents are read as text, one character for each byte.
pub open spec fn slot_text(f: FieldSpec, slot: Slot) -> Option<Seq<char>> {
    match slot {
        Slot::Condition => match f.if_cond {
            Some(e) => Some(e.text@),
            None => None,
        },
        Slot::Size => match f.size {
            Some(e) => Some(e.text@),
            None => None,
        },
        Slot::Repeat => match f.repeat {
            Some(RepeatSpec::Count(e)) => Some(e.text@),
            Some(RepeatSpec::Until(e)) => Some(e.text@),
            _ => None,
        },
        Slot::Contents => match f.contents {
            Some(bytes) => Some(bytes_as_chars(bytes@)),
            None => None,
        },
    }
}

/// The characters of the text in place `slot` of a member.
pub fn slot_chars(f: &FieldSpec, slot: Slot) -> (r: Option<Vec<char>>)
    ensures
        match r {
            Some(chars) => slot_text(*f, slot) == Some(chars@),
            None => slot_text(*f, slot) is None,
        },
{
    match slot {
        Slot::Condition => match &f.if_cond {
            Some(e) => Some(to_chars(e.text.as_str())),
            None => None,
        },
        Slot::Size => match &f.size {
            Some(e) => Some(to_chars(e.text.as_str())),
            None => None,
        },
        Slot::Repeat => match &f.repeat {
            Some(RepeatSpec::Count(e)) => Some(to_chars(e.text.as_str())),
            Some(RepeatSpec::Until(e)) => Some(to_chars(e.text.as_str())),
            _ => None,
        },
        Slot::Contents => match &f.contents {
            Some(bytes) => Some(chars_of_bytes(bytes)),
            None => None,
        },
    }
}

/// Whether member `k` of type `x` holds, in place `slot` and from `offset`
/// on, a reference to the value `name` of `context`.
pub open spec fn asks_at(
    decls: Seq<Declared>,
    x: int,
    k: int,
    slot: Slot,
    offset: int,
    context: Context,
    name: Seq<char>,
) -> bool {
    &&& 0 <= x < decls.len()
    &&& 0 <= k < decls[x].spec.members().len()
    &&& slot_text(decls[x].spec.members()[k], slot) matches Some(s)
    &&& refers_at(s, offset, context, name)
}

/// One reference upwards, with the place where it stands.
#[derive(Debug, PartialEq, Eq)]
pub struct Request {
    /// The index of the type that holds the member.
    pub source: usize,
    /// The index of the member among the members of its type.
    pub member: usize,
    /// The place of the expression in the member.
    pub slot: Slot,
    /// Where in the expression the reference starts.
    pub offset: usize,
    pub context: Context,
    /// The name of the value asked for.
    pub name: Identifier,
}

/// Whether the first place comes before the second in reading order: by
/// type, member, slot and offset.
pub open spec fn comes_before(
    x1: int,
    k1: int,
    s1: int,
    o1: int,
    x2: int,
    k2: int,
    s2: int,
    o2: int,
) -> bool {
    x1 < x2 || (x1 == x2 && (k1 < k2 || (k1 == k2 && (s1 < s2 || (s1 == s2 && o1 < o2)))))
}

/// Whether the request stands in `decls` where it says.
pub open spec fn genuine(r: Request, decls: Seq<Declared>) -> bool {
    asks_at(decls, r.source as int, r.member as int, r.slot, r.offset as int, r.context, r.name@)
}

/// Whether `reqs` holds the requests of `decls` that stand before the place
/// `(x, k, slot, offset)`: each genuine, in reading order, none left out.
pub open spec fn requests_before(
    reqs: Seq<Request>,
    decls: Seq<Declared>,
    x: int,
    k: int,
    slot: int,
    offset: int,
) -> bool {
    &&& forall|i: int|
        0 <= i < reqs.len() ==> genuine(#[trigger] reqs[i], decls) && comes_before(
            reqs[i].source as int,
            reqs[i].member as int,
            slot_rank(reqs[i].slot),
            reqs[i].offset as int,
            x,
            k,
            slot,
            offset,
        )
    &&& forall|a: int, b: int|
        0 <= a < b < reqs.len() ==> comes_before(
            (#[trigger] reqs[a]).source as int,
            reqs[a].member as int,
            slot_rank(reqs[a].slot),
            reqs[a].offset as int,
            (#[trigger] reqs[b]).source as int,
            reqs[b].member as int,
            slot_rank(reqs[b].slot),
            reqs[b].offset as int,
        )
    &&& forall|y: int, m: int, s: Slot, o: int, context: Context, name: Seq<char>| #[trigger]
        asks_at(decls, y, m, s, o, context, name) && comes_before(y, m, slot_rank(s), o, x, k, slot, offset)
            ==> exists|i: int|
            0 <= i < reqs.len() && (#[trigger] reqs[i]).source == y && reqs[i].member == m && reqs[i].slot
                == s && reqs[i].offset == o && reqs[i].context == context && reqs[i].name@ == name
}

/// Whether `reqs` holds every request of `decls`: each genuine, in reading
/// order, none left out.
pub open spec fn requests_of(reqs: Seq<Request>, decls: Seq<Declared>) -> bool {
    requests_before(reqs, decls, decls.len() as int, 0, 0, 0)
}

/// Adds the requests of one place of a member.
fn scan_slot(decls: &Vec<Declared>, x: usize, k: usize, slot: Slot, out: &mut Vec<Request>)
    requires
        x < decls@.len(),
        k < decls@[x as int].spec.members().len(),
        requests_before(old(out)@, decls@, x as int, k as int, slot_rank(slot), 0),
    ensures
        requests_before(final(out)@, decls@, x as int, k as int, slot_rank(slot) + 1, 0),
{
    let ghost before = out@;
    let f = decls[x].spec.member(k);
    match slot_chars(f, slot) {
        None => {},
        Some(text) => {
            let refs = find_references(&text);
            let ghost s = text@;
            let mut i: usize = 0;
            while i < refs.len()
                invariant
                    i <= refs@.len(),
                    x < decls@.len(),
                    k < decls@[x as int].spec.members().len(),
                    slot_text(decls@[x as int].spec.members()[k as int], slot) == Some(s),
                    lists_references(refs@, s),
                    requests_before(before, decls@, x as int, k as int, slot_rank(slot), 0),
                    out@.len() == before.len() + i,
                    forall|j: int| 0 <= j < before.len() ==> out@[j] == before[j],
                    forall|j: int|
                        0 <= j < i ==> {
                            let r = #[trigger] out@[before.len() + j];
                            &&& r.source == x
                            &&& r.member == k
                            &&& r.slot == slot
                            &&& r.offset == refs@[j].offset
                            &&& r.context == refs@[j].context
                            &&& r.name@ == refs@[j].name@
                        },
                decreases refs.len() - i,
            {
                let r = &refs[i];
                out.push(
                    Request {
                        source: x,
                        member: k,
                        slot,
                        offset: r.offset,
                        context: r.context,
                        name: r.name.clone(),
                    },
                );
                i += 1;
            }
            proof {
                let n0 = before.len() as int;
                assert forall|j: int| 0 <= j < out@.len() implies genuine(#[trigger] out@[j], decls@)
                    && comes_before(
                    out@[j].source as int,
                    out@[j].member as int,
                    slot_rank(out@[j].slot),
                    out@[j].offset as int,
                    x as int,
                    k as int,
                    slot_rank(slot) + 1,
                    0,
                ) by {
                    if j < n0 {
                        assert(out@[j] == before[j]);
                    } else {
                        let found = refs@[j - n0];
                        assert(out@[n0 + (j - n0)].offset == found.offset);
                        assert(refers_at(s, found.offset as int, found.context, found.name@));
                    }
                }
                assert forall|a: int, b: int| 0 <= a < b < out@.len() implies comes_before(
                    (#[trigger] out@[a]).source as int,
                    out@[a].member as int,
                    slot_rank(out@[a].slot),
                    out@[a].offset as int,
                    (#[trigger] out@[b]).source as int,
                    out@[b].member as int,
                    slot_rank(out@[b].slot),
                    out@[b].offset as int,
                ) by {
                    if b < n0 {
                        assert(out@[a] == before[a] && out@[b] == before[b]);
                    } else if a < n0 {
                        assert(out@[a] == before[a]);
                        assert(out@[n0 + (b - n0)].slot == slot);
                    } else {
                        assert(out@[n0 + (a - n0)].offset == refs@[a - n0].offset);
                        assert(out@[n0 + (b - n0)].offset == refs@[b - n0].offset);
                        assert(refs@[a - n0].offset < refs@[b - n0].offset);
                    }
                }
                assert forall|y: int, m: int, sl: Slot, o: int, context: Context, name: Seq<char>| #[trigger]
                    asks_at(decls@, y, m, sl, o, context, name) && comes_before(
                        y,
                        m,
                        slot_rank(sl),
                        o,
                        x as int,
                        k as int,
                        slot_rank(slot) + 1,
                        0,
                    ) implies exists|j: int|
                    0 <= j < out@.len() && (#[trigger] out@[j]).source == y && out@[j].member == m
                        && out@[j].slot == sl && out@[j].offset == o && out@[j].context == context
                        && out@[j].name@ == name by {
                    if comes_before(y, m, slot_rank(sl), o, x as int, k as int, slot_rank(slot), 0) {
                        let j = choose|j: int|
                            0 <= j < before.len() && (#[trigger] before[j]).source == y && before[j].member
                                == m && before[j].slot == sl && before[j].offset == o && before[j].context
                                == context && before[j].name@ == name;
                        assert(out@[j] == before[j]);
                    } else {
                        assert(y == x && m == k && sl == slot);
                        assert(refers_at(s, o, context, name));
                        let j = choose|j: int|
                            0 <= j < refs@.len() && (#[trigger] refs@[j]).offset == o && refs@[j].context
                                == context && refs@[j].name@ == name;
                        assert(out@[n0 + j].offset == o);
                    }
                }
            }
        },
    }
}

/// Every request of the declared types, in reading order: type by type,
/// member by member, and in each member its condition, its size, its
/// repetition and its contents.
pub fn scan_requests(decls: &Vec<Declared>) -> (reqs: Vec<Request>)
    requires
        countable(decls@),
    ensures
        requests_of(reqs@, decls@),
{
    let mut reqs: Vec<Request> = Vec::new();
    let mut x: usize = 0;
    while x < decls.len()
        invariant
            x <= decls.len(),
            countable(decls@),
            requests_before(reqs@, decls@, x as int, 0, 0, 0),
        decreases decls.len() - x,
    {
        let members = decls[x].spec.member_count();
        let mut k: usize = 0;
        while k < members
            invariant
                k <= members,
                x < decls.len(),
                members == decls@[x as int].spec.members().len(),
                requests_before(reqs@, decls@, x as int, k as int, 0, 0),
            decreases members - k,
        {
            scan_slot(decls, x, k, Slot::Condition, &mut reqs);
            scan_slot(decls, x, k, Slot::Size, &mut reqs);
            scan_slot(decls, x, k, Slot::Repeat, &mut reqs);
            scan_slot(decls, x, k, Slot::Contents, &mut reqs);
            assert(requests_before(reqs@, decls@, x as int, k + 1, 0, 0));
            k += 1;
        }
        assert(requests_before(reqs@, decls@, x + 1, 0, 0, 0));
        x += 1;
    }
    reqs
}

} // verus!
