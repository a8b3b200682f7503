//! The references from declarations to declared types and enumerations, and
//! the check that each of them resolves.

use vstd::prelude::*;
use crate::ident::Identifier;
use crate::naming::{lookup, Lookup, NameError, NameErrorView, NamingContext, SymbolView};
use crate::schema::{countable, Declared, TypeRef};

verus! {

/// The declared type that `name` stands for, where `count` types are
/// declared.
pub open spec fn type_named(table: Seq<SymbolView>, count: int, name: Seq<char>) -> Option<int> {
    match lookup(table, name) {
        Lookup::Found(s) => if s < count {
            Some(s)
        } else {
            None
        },
        _ => None,
    }
}

/// The declared enumeration that `name` stands for.
pub open spec fn enum_named(table: Seq<SymbolView>, count: int, name: Seq<char>) -> Option<int> {
    match lookup(table, name) {
        Lookup::Found(s) => if s >= count {
            Some(s)
        } else {
            None
        },
        _ => None,
    }
}

/// Why `name` stands for no declared type, if it does not.
pub open spec fn type_fault(
    table: Seq<SymbolView>,
    count: int,
    name: Seq<char>,
) -> Option<NameErrorView> {
    match lookup(table, name) {
        Lookup::Found(s) => if s < count {
            None
        } else {
            Some(NameErrorView::Unknown { name })
        },
        Lookup::Unknown => Some(NameErrorView::Unknown { name }),
        Lookup::Ambiguous => Some(NameErrorView::Ambiguous { name }),
    }
}

/// Why `name` stands for no declared enumeration, if it does not.
pub open spec fn enum_fault(
    table: Seq<SymbolView>,
    count: int,
    name: Seq<char>,
) -> Option<NameErrorView> {
    match lookup(table, name) {
        Lookup::Found(s) => if s >= count {
            None
        } else {
            Some(NameErrorView::Unknown { name })
        },
        Lookup::Unknown => Some(NameErrorView::Unknown { name }),
        Lookup::Ambiguous => Some(NameErrorView::Ambiguous { name }),
    }
}

/// The index of the declared type that `name` stands for.
pub fn resolve_type(ctx: &NamingContext, count: usize, name: &str) -> (r: Result<usize, NameError>)
    requires
        ctx.well_formed(),
    ensures
        match r {
            Ok(j) => type_named(ctx@, count as int, name@) == Some(j as int) && j < count,
            Err(e) => type_named(ctx@, count as int, name@) is None && type_fault(
                ctx@,
                count as int,
                name@,
            ) == Some(e@),
        },
{
    match ctx.resolve_id(name) {
        Ok(s) => if s < count {
            Ok(s)
        } else {
            Err(NameError::Unknown { name: name.to_owned() })
        },
        Err(e) => Err(e),
    }
}

/// The index of the declared enumeration that `name` stands for.
pub fn resolve_enum(ctx: &NamingContext, count: usize, name: &str) -> (r: Result<usize, NameError>)
    requires
        ctx.well_formed(),
    ensures
        match r {
            Ok(s) => enum_named(ctx@, count as int, name@) == Some(s as int) && count <= s < ctx@.len(),
            Err(e) => enum_named(ctx@, count as int, name@) is None && enum_fault(
                ctx@,
                count as int,
                name@,
            ) == Some(e@),
        },
{
    match ctx.resolve_id(name) {
        Ok(s) => if s >= count {
            Ok(s)
        } else {
            Err(NameError::Unknown { name: name.to_owned() })
        },
        Err(e) => Err(e),
    }
}

/// Whether member `k` of type `x` is declared as an instance of type `j`.
pub open spec fn field_links(
    table: Seq<SymbolView>,
    decls: Seq<Declared>,
    x: int,
    k: int,
    j: int,
) -> bool {
    &&& 0 <= x < decls.len()
    &&& 0 <= k < decls[x].spec.members().len()
    &&& decls[x].spec.members()[k].named_type() matches Some(n)
    &&& type_named(table, decls.len() as int, n) == Some(j)
}

/// Whether parameter `p` of type `x` is declared as an instance of type `j`.
pub open spec fn param_links(
    table: Seq<SymbolView>,
    decls: Seq<Declared>,
    x: int,
    p: int,
    j: int,
) -> bool {
    &&& 0 <= x < decls.len()
    &&& 0 <= p < decls[x].spec.params@.len()
    &&& decls[x].spec.params@[p].named_type() matches Some(n)
    &&& type_named(table, decls.len() as int, n) == Some(j)
}

/// Whether member `k` of type `x` takes its values from enumeration `e`.
pub open spec fn enum_links(
    table: Seq<SymbolView>,
    decls: Seq<Declared>,
    x: int,
    k: int,
    e: int,
) -> bool {
    &&& 0 <= x < decls.len()
    &&& 0 <= k < decls[x].spec.members().len()
    &&& decls[x].spec.members()[k].enum_ref matches Some(id)
    &&& enum_named(table, decls.len() as int, id@) == Some(e)
}

/// The type that member `k` of type `x` is an instance of.
pub fn field_target(
    ctx: &NamingContext,
    decls: &Vec<Declared>,
    x: usize,
    k: usize,
) -> (r: Option<usize>)
    requires
        ctx.well_formed(),
        x < decls@.len(),
        k < decls@[x as int].spec.members().len(),
    ensures
        match r {
            Some(j) => j < decls@.len() && field_links(ctx@, decls@, x as int, k as int, j as int),
            None => forall|j: int| !field_links(ctx@, decls@, x as int, k as int, j),
        },
{
    match &decls[x].spec.member(k).type_ref {
        Some(TypeRef::Named(n)) => match resolve_type(ctx, decls.len(), n.as_str()) {
            Ok(j) => Some(j),
            Err(_) => None,
        },
        _ => None,
    }
}

/// The type that parameter `p` of type `x` is an instance of.
pub fn param_target(
    ctx: &NamingContext,
    decls: &Vec<Declared>,
    x: usize,
    p: usize,
) -> (r: Option<usize>)
    requires
        ctx.well_formed(),
        x < decls@.len(),
        p < decls@[x as int].spec.params@.len(),
    ensures
        match r {
            Some(j) => j < decls@.len() && param_links(ctx@, decls@, x as int, p as int, j as int),
            None => forall|j: int| !param_links(ctx@, decls@, x as int, p as int, j),
        },
{
    match &decls[x].spec.params[p].type_ref {
        Some(TypeRef::Named(n)) => match resolve_type(ctx, decls.len(), n.as_str()) {
            Ok(j) => Some(j),
            Err(_) => None,
        },
        _ => None,
    }
}

/// The enumeration that member `k` of type `x` takes its values from.
pub fn enum_target(
    ctx: &NamingContext,
    decls: &Vec<Declared>,
    x: usize,
    k: usize,
) -> (r: Option<usize>)
    requires
        ctx.well_formed(),
        x < decls@.len(),
        k < decls@[x as int].spec.members().len(),
    ensures
        match r {
            Some(e) => decls@.len() <= e < ctx@.len() && enum_links(
                ctx@,
                decls@,
                x as int,
                k as int,
                e as int,
            ),
            None => forall|e: int| !enum_links(ctx@, decls@, x as int, k as int, e),
        },
{
    match &decls[x].spec.member(k).enum_ref {
        Some(id) => match resolve_enum(ctx, decls.len(), id.as_str()) {
            Ok(e) => Some(e),
            Err(_) => None,
        },
        None => None,
    }
}

/// The place of a reference in a declaration.
#[derive(Debug, Clone, Copy, PartialEq, Eq, Structural)]
pub enum Site {
    /// The type of a field or an instance.
    FieldType,
    /// The type of a parameter.
    ParamType,
    /// The enumeration of a field or an instance.
    FieldEnum,
}

/// The three sites in the order in which a type's references are read.
pub open spec fn site_rank(site: Site) -> int {
    match site {
        Site::FieldType => 0,
        Site::ParamType => 1,
        Site::FieldEnum => 2,
    }
}

/// A reference that does not resolve, with the declaration that makes it.
#[derive(Debug, PartialEq, Eq)]
pub struct ReferenceError {
    /// The index of the type that holds the declaration.
    pub in_type: usize,
    pub site: Site,
    /// The index of the member or parameter among those of the type.
    pub index: usize,
    /// The name of the member or parameter.
    pub field: Identifier,
    pub error: NameError,
}

/// Whether the first place comes before the second in reading order: by type,
/// then by site, then by index.
pub open spec fn place_before(x1: int, r1: int, i1: int, x2: int, r2: int, i2: int) -> bool {
    x1 < x2 || (x1 == x2 && (r1 < r2 || (r1 == r2 && i1 < i2)))
}

/// The name of the declaration at a place, and why its reference does not
/// resolve, if the place holds a reference that does not.
pub open spec fn fault_at(
    table: Seq<SymbolView>,
    decls: Seq<Declared>,
    x: int,
    site: Site,
    index: int,
) -> Option<(Seq<char>, NameErrorView)> {
    if !(0 <= x < decls.len() && 0 <= index) {
        None
    } else {
        let t = decls[x].spec;
        let count = decls.len() as int;
        match site {
            Site::FieldType => if index < t.members().len() {
                match t.members()[index].named_type() {
                    Some(n) => match type_fault(table, count, n) {
                        Some(e) => Some((t.members()[index].id@, e)),
                        None => None,
                    },
                    None => None,
                }
            } else {
                None
            },
            Site::ParamType => if index < t.params@.len() {
                match t.params@[index].named_type() {
                    Some(n) => match type_fault(table, count, n) {
                        Some(e) => Some((t.params@[index].id@, e)),
                        None => None,
                    },
                    None => None,
                }
            } else {
                None
            },
            Site::FieldEnum => if index < t.members().len() {
                match t.members()[index].enum_ref {
                    Some(id) => match enum_fault(table, count, id@) {
                        Some(e) => Some((t.members()[index].id@, e)),
                        None => None,
                    },
                    None => None,
                }
            } else {
                None
            },
        }
    }
}

/// Whether `errors` reports the reference at its place truly.
pub open spec fn reports(e: ReferenceError, table: Seq<SymbolView>, decls: Seq<Declared>) -> bool {
    fault_at(table, decls, e.in_type as int, e.site, e.index as int) == Some((e.field@, e.error@))
}

/// Whether `errors` holds the references that do not resolve among those
/// before the place `(x, r, i)`: each true, in reading order, none left out.
pub open spec fn reports_before(
    errors: Seq<ReferenceError>,
    table: Seq<SymbolView>,
    decls: Seq<Declared>,
    x: int,
    r: int,
    i: int,
) -> bool {
    &&& forall|k: int|
        0 <= k < errors.len() ==> reports(#[trigger] errors[k], table, decls) && place_before(
            errors[k].in_type as int,
            site_rank(errors[k].site),
            errors[k].index as int,
            x,
            r,
            i,
        )
    &&& forall|a: int, b: int|
        0 <= a < b < errors.len() ==> place_before(
            (#[trigger] errors[a]).in_type as int,
            site_rank(errors[a].site),
            errors[a].index as int,
            (#[trigger] errors[b]).in_type as int,
            site_rank(errors[b].site),
            errors[b].index as int,
        )
    &&& forall|y: int, site: Site, index: int|
        (#[trigger] fault_at(table, decls, y, site, index)) is Some && place_before(
            y,
            site_rank(site),
            index,
            x,
            r,
            i,
        ) ==> exists|k: int|
            0 <= k < errors.len() && (#[trigger] errors[k]).in_type == y && errors[k].site == site
                && errors[k].index == index
}

/// Whether `errors` holds every reference of `decls` that does not resolve:
/// each true, in reading order, none left out.
pub open spec fn reports_all(
    errors: Seq<ReferenceError>,
    table: Seq<SymbolView>,
    decls: Seq<Declared>,
) -> bool {
    reports_before(errors, table, decls, decls.len() as int, 0, 0)
}

/// Reads the reference at one place and keeps the error if it does not
/// resolve.
fn check_place(
    ctx: &NamingContext,
    decls: &Vec<Declared>,
    x: usize,
    site: Site,
    index: usize,
    errors: &mut Vec<ReferenceError>,
)
    requires
        ctx.well_formed(),
        x < decls@.len(),
        decls@[x as int].spec.fields@.len() + decls@[x as int].spec.instances@.len() <= usize::MAX,
        site == Site::ParamType ==> index < decls@[x as int].spec.params@.len(),
        site != Site::ParamType ==> index < decls@[x as int].spec.members().len(),
        reports_before(old(errors)@, ctx@, decls@, x as int, site_rank(site), index as int),
    ensures
        reports_before(final(errors)@, ctx@, decls@, x as int, site_rank(site), index + 1),
{
    let ghost before = errors@;
    let t = decls[x].spec;
    let count = decls.len();
    let found: Option<(Identifier, NameError)> = match site {
        Site::FieldType => {
            let f = t.member(index);
            match &f.type_ref {
                Some(TypeRef::Named(n)) => match resolve_type(ctx, count, n.as_str()) {
                    Ok(_) => None,
                    Err(e) => Some((f.id.clone(), e)),
                },
                _ => None,
            }
        },
        Site::ParamType => {
            let p = &t.params[index];
            match &p.type_ref {
                Some(TypeRef::Named(n)) => match resolve_type(ctx, count, n.as_str()) {
                    Ok(_) => None,
                    Err(e) => Some((p.id.clone(), e)),
                },
                _ => None,
            }
        },
        Site::FieldEnum => {
            let f = t.member(index);
            match &f.enum_ref {
                Some(id) => match resolve_enum(ctx, count, id.as_str()) {
                    Ok(_) => None,
                    Err(e) => Some((f.id.clone(), e)),
                },
                None => None,
            }
        },
    };
    assert(match found {
        Some((id, e)) => fault_at(ctx@, decls@, x as int, site, index as int) == Some((id@, e@)),
        None => fault_at(ctx@, decls@, x as int, site, index as int) is None,
    });
    match found {
        Some((field, error)) => {
            let e = ReferenceError { in_type: x, site, index, field, error };
            let ghost ev = e;
            errors.push(e);
            proof {
                assert forall|y: int, s: Site, i: int|
                    (#[trigger] fault_at(ctx@, decls@, y, s, i)) is Some && place_before(
                        y,
                        site_rank(s),
                        i,
                        x as int,
                        site_rank(site),
                        index + 1,
                    ) implies exists|k: int|
                    0 <= k < errors@.len() && (#[trigger] errors@[k]).in_type == y && errors@[k].site == s
                        && errors@[k].index == i by {
                    if place_before(y, site_rank(s), i, x as int, site_rank(site), index as int) {
                        let k = choose|k: int|
                            0 <= k < before.len() && (#[trigger] before[k]).in_type == y && before[k].site
                                == s && before[k].index == i;
                        assert(errors@[k] == before[k]);
                    } else {
                        assert(errors@[before.len() as int] == ev);
                    }
                }
                assert forall|k: int| 0 <= k < errors@.len() implies reports(
                    #[trigger] errors@[k],
                    ctx@,
                    decls@,
                ) && place_before(
                    errors@[k].in_type as int,
                    site_rank(errors@[k].site),
                    errors@[k].index as int,
                    x as int,
                    site_rank(site),
                    index + 1,
                ) by {
                    if k < before.len() {
                        assert(errors@[k] == before[k]);
                    }
                }
                assert forall|a: int, b: int| 0 <= a < b < errors@.len() implies place_before(
                    (#[trigger] errors@[a]).in_type as int,
                    site_rank(errors@[a].site),
                    errors@[a].index as int,
                    (#[trigger] errors@[b]).in_type as int,
                    site_rank(errors@[b].site),
                    errors@[b].index as int,
                ) by {
                    assert(errors@[a] == before[a]);
                    if b < before.len() {
                        assert(errors@[b] == before[b]);
                    }
                }
            }
        },
        None => {},
    }
}

/// Every reference to a type or an enumeration that does not resolve, in
/// reading order. A reference to a type has to resolve to a declared type, a
/// reference to an enumeration to a declared enumeration.
pub fn check_references(ctx: &NamingContext, decls: &Vec<Declared>) -> (errors: Vec<ReferenceError>)
    requires
        ctx.well_formed(),
        countable(decls@),
    ensures
        reports_all(errors@, ctx@, decls@),
{
    let mut errors: Vec<ReferenceError> = Vec::new();
    let mut x: usize = 0;
    while x < decls.len()
        invariant
            x <= decls.len(),
            ctx.well_formed(),
            countable(decls@),
            reports_before(errors@, ctx@, decls@, x as int, 0, 0),
        decreases decls.len() - x,
    {
        let t = decls[x].spec;
        let members = t.member_count();
        let mut k: usize = 0;
        while k < members
            invariant
                k <= members,
                x < decls.len(),
                t == decls@[x as int].spec,
                members == t.members().len(),
                t.fields@.len() + t.instances@.len() <= usize::MAX,
                ctx.well_formed(),
                reports_before(errors@, ctx@, decls@, x as int, 0, k as int),
            decreases members - k,
        {
            check_place(ctx, decls, x, Site::FieldType, k, &mut errors);
            k += 1;
        }
        assert(reports_before(errors@, ctx@, decls@, x as int, 1, 0));
        let mut p: usize = 0;
        while p < t.params.len()
            invariant
                p <= t.params.len(),
                x < decls.len(),
                t == decls@[x as int].spec,
                t.fields@.len() + t.instances@.len() <= usize::MAX,
                ctx.well_formed(),
                reports_before(errors@, ctx@, decls@, x as int, 1, p as int),
            decreases t.params.len() - p,
        {
            check_place(ctx, decls, x, Site::ParamType, p, &mut errors);
            p += 1;
        }
        assert(reports_before(errors@, ctx@, decls@, x as int, 2, 0));
        let mut k: usize = 0;
        while k < members
            invariant
                k <= members,
                x < decls.len(),
                t == decls@[x as int].spec,
                members == t.members().len(),
                t.fields@.len() + t.instances@.len() <= usize::MAX,
                ctx.well_formed(),
                reports_before(errors@, ctx@, decls@, x as int, 2, k as int),
            decreases members - k,
        {
            check_place(ctx, decls, x, Site::FieldEnum, k, &mut errors);
            k += 1;
        }
        assert(reports_before(errors@, ctx@, decls@, x + 1, 0, 0));
        x += 1;
    }
    errors
}

} // verus!
