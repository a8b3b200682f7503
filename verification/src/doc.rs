//! The documentation of types and fields as text: what a type is called,
//! which types hold it, what it depends on and what it has to supply.

use vstd::prelude::*;
use crate::graph::{Dependency, Type};
use crate::ident::Identifier;
use crate::naming::{NamingContext, SymbolView, text_view};
use crate::obligation::{Obligation, ObligationKind, ObligationSet};
use crate::schema::{Expr, FieldSpec, RepeatSpec, StringOrArray};

verus! {

/// The texts of a list of lines.
pub open spec fn texts(lines: Seq<String>) -> Seq<Seq<char>> {
    Seq::new(lines.len(), |i: int| lines[i]@)
}

/// The line that links to a symbol: with its module in front where an
/// imported module declares it.
pub open spec fn link_line(s: SymbolView) -> Seq<char> {
    match s.module {
        Some(m) => "- [`"@ + m + "::"@ + s.canonical + "`]\n"@,
        None => "- [`"@ + s.canonical + "`]\n"@,
    }
}

/// One link line for each of `ids`, in their order.
pub open spec fn link_lines(table: Seq<SymbolView>, ids: Seq<usize>) -> Seq<char>
    decreases ids.len(),
{
    if ids.len() == 0 {
        Seq::empty()
    } else {
        link_lines(table, ids.drop_last()) + link_line(table[ids.last() as int])
    }
}

/// A heading and one link line for each of `ids`.
pub open spec fn type_section(
    table: Seq<SymbolView>,
    key: Seq<char>,
    ids: Seq<usize>,
) -> Seq<char> {
    "## "@ + key + "\n"@ + link_lines(table, ids)
}

/// Whether each of `ids` is an index of the table.
pub open spec fn all_listed(table: Seq<SymbolView>, ids: Seq<usize>) -> bool {
    forall|i: int| 0 <= i < ids.len() ==> ids[i] < table.len()
}

/// The section that lists the symbols `ids` under the heading `key`.
pub fn doc_type_seq(nc: &NamingContext, key: &str, ids: &Vec<usize>) -> (text: String)
    requires
        all_listed(nc@, ids@),
    ensures
        text@ == type_section(nc@, key@, ids@),
{
    let mut text = String::from_str("## ");
    text.append(key);
    text.append("\n");
    let ghost head = text@;
    let mut i: usize = 0;
    while i < ids.len()
        invariant
            i <= ids@.len(),
            all_listed(nc@, ids@),
            head == "## "@ + key@ + "\n"@,
            text@ == head + link_lines(nc@, ids@.take(i as int)),
        decreases ids.len() - i,
    {
        let ghost before = text@;
        let named = nc.symbol(ids[i]);
        text.append("- [`");
        match &named.owning_module {
            Some(m) => {
                text.append(m.as_str());
                text.append("::");
            },
            None => {},
        }
        text.append(named.canonical_name.as_str());
        text.append("`]\n");
        proof {
            let next = ids@.take(i + 1);
            assert(next.drop_last() =~= ids@.take(i as int));
            assert(next.last() == ids@[i as int]);
            assert(text@ =~= before + link_line(nc@[ids@[i as int] as int]));
            assert(text@ =~= head + link_lines(nc@, next));
        }
        i += 1;
    }
    assert(ids@.take(i as int) =~= ids@);
    text
}

/// The section for a list of types, if the list is not empty.
pub fn doc_type_list(nc: &NamingContext, key: &str, list: &Vec<usize>) -> (r: Option<String>)
    requires
        all_listed(nc@, list@),
    ensures
        match r {
            Some(text) => list@.len() > 0 && text@ == type_section(nc@, key@, list@),
            None => list@.len() == 0,
        },
{
    if list.len() == 0 {
        None
    } else {
        Some(doc_type_seq(nc, key, list))
    }
}

/// The declarations that the dependencies are on, in their order.
pub open spec fn targets(deps: Seq<Dependency>) -> Seq<usize> {
    Seq::new(deps.len(), |i: int| deps[i].on)
}

/// The section for the declarations depended on, if there are any.
pub fn doc_type_map(nc: &NamingContext, key: &str, deps: &Vec<Dependency>) -> (r: Option<String>)
    requires
        all_listed(nc@, targets(deps@)),
    ensures
        match r {
            Some(text) => deps@.len() > 0 && text@ == type_section(nc@, key@, targets(deps@)),
            None => deps@.len() == 0,
        },
{
    if deps.len() == 0 {
        return None;
    }
    let mut ids: Vec<usize> = Vec::new();
    let mut i: usize = 0;
    while i < deps.len()
        invariant
            i <= deps@.len(),
            ids@ == targets(deps@).take(i as int),
        decreases deps.len() - i,
    {
        ids.push(deps[i].on);
        assert(ids@ =~= targets(deps@).take(i + 1));
        i += 1;
    }
    assert(ids@ =~= targets(deps@));
    Some(doc_type_seq(nc, key, &ids))
}

/// A label, a text and the closing quote.
pub open spec fn quoted(label: Seq<char>, text: Seq<char>) -> Seq<char> {
    label + text + "`"@
}

/// The line for a quoted text, if there is a text.
pub open spec fn quoted_line(label: Seq<char>, text: Option<Seq<char>>) -> Seq<Seq<char>> {
    match text {
        Some(t) => seq![quoted(label, t)],
        None => Seq::empty(),
    }
}

/// The line for a text as it is, if there is a text.
pub open spec fn plain_line(text: Option<Seq<char>>) -> Seq<Seq<char>> {
    match text {
        Some(t) => seq![t],
        None => Seq::empty(),
    }
}

/// The lines of further reading, if there are any.
pub open spec fn ref_lines(r: Option<StringOrArray>) -> Seq<Seq<char>> {
    match r {
        Some(x) => texts(x.lines()),
        None => Seq::empty(),
    }
}

/// The text of an optional expression.
pub open spec fn expr_text(e: Option<Expr>) -> Option<Seq<char>> {
    match e {
        Some(x) => Some(x.text@),
        None => None,
    }
}

/// The spelling of an optional identifier.
pub open spec fn ident_text(id: Option<Identifier>) -> Option<Seq<char>> {
    match id {
        Some(x) => Some(x@),
        None => None,
    }
}

/// The line that says how a field is repeated, if it is.
pub open spec fn repeat_line(r: Option<RepeatSpec>) -> Seq<Seq<char>> {
    match r {
        Some(RepeatSpec::Count(e)) => seq![quoted("Repeat-Expr: `"@, e.text@)],
        Some(RepeatSpec::Eos) => seq!["Repeat until end-of-stream"@],
        Some(RepeatSpec::Until(e)) => seq![quoted("Repeat-Until: `"@, e.text@)],
        None => Seq::empty(),
    }
}

/// The documentation of a field, line by line: its own text, its further
/// reading, then its condition, size, enumeration, encoding and repetition,
/// each where declared.
pub open spec fn attr_doc(f: FieldSpec) -> Seq<Seq<char>> {
    plain_line(text_view(f.doc)) + ref_lines(f.doc_ref) + quoted_line("If: `"@, expr_text(f.if_cond))
        + quoted_line("Size: `"@, expr_text(f.size)) + quoted_line("Enum: `"@, ident_text(f.enum_ref))
        + quoted_line("Encoding: `"@, text_view(f.encoding)) + repeat_line(f.repeat)
}

/// Adds one line.
fn push_line(lines: &mut Vec<String>, line: String)
    ensures
        texts(final(lines)@) == texts(old(lines)@).push(line@),
{
    lines.push(line);
    assert(texts(lines@) =~= texts(old(lines)@).push(line@));
}

/// Adds the line for a quoted text.
fn push_quoted(lines: &mut Vec<String>, label: &str, text: &str)
    ensures
        texts(final(lines)@) == texts(old(lines)@) + quoted_line(label@, Some(text@)),
{
    let mut line = String::from_str(label);
    line.append(text);
    line.append("`");
    push_line(lines, line);
    assert(texts(lines@) =~= texts(old(lines)@) + quoted_line(label@, Some(text@)));
}

/// Adds the lines of further reading.
fn push_refs(lines: &mut Vec<String>, refs: Option<&StringOrArray>)
    ensures
        texts(final(lines)@) == texts(old(lines)@) + match refs {
            Some(x) => texts(x.lines()),
            None => Seq::empty(),
        },
{
    let ghost before = texts(lines@);
    match refs {
        Some(x) => {
            let n = x.len();
            let mut i: usize = 0;
            assert(texts(lines@) =~= before + texts(x.lines()).take(0));
            while i < n
                invariant
                    i <= n,
                    n == x.lines().len(),
                    texts(lines@) == before + texts(x.lines()).take(i as int),
                decreases n - i,
            {
                let line = x.line(i).clone();
                push_line(lines, line);
                assert(texts(lines@) =~= before + texts(x.lines()).take(i + 1));
                i += 1;
            }
            assert(texts(x.lines()).take(n as int) =~= texts(x.lines()));
        },
        None => {
            assert(texts(lines@) =~= before + Seq::<Seq<char>>::empty());
        },
    }
}

/// The documentation of a field, line by line.
pub fn doc_attr(attr: &FieldSpec) -> (lines: Vec<String>)
    ensures
        texts(lines@) == attr_doc(*attr),
{
    let mut lines: Vec<String> = Vec::new();
    assert(texts(lines@) =~= Seq::<Seq<char>>::empty());
    match &attr.doc {
        Some(d) => {
            push_line(&mut lines, d.clone());
        },
        None => {},
    }
    assert(texts(lines@) =~= plain_line(text_view(attr.doc)));
    push_refs(&mut lines, attr.doc_ref.as_ref());
    let ghost l1 = texts(lines@);
    assert(l1 == plain_line(text_view(attr.doc)) + ref_lines(attr.doc_ref));
    match &attr.if_cond {
        Some(e) => {
            push_quoted(&mut lines, "If: `", e.text.as_str());
        },
        None => {},
    }
    let ghost l2 = texts(lines@);
    assert(l2 =~= l1 + quoted_line("If: `"@, expr_text(attr.if_cond)));
    match &attr.size {
        Some(e) => {
            push_quoted(&mut lines, "Size: `", e.text.as_str());
        },
        None => {},
    }
    let ghost l3 = texts(lines@);
    assert(l3 =~= l2 + quoted_line("Size: `"@, expr_text(attr.size)));
    match &attr.enum_ref {
        Some(id) => {
            push_quoted(&mut lines, "Enum: `", id.as_str());
        },
        None => {},
    }
    let ghost l4 = texts(lines@);
    assert(l4 =~= l3 + quoted_line("Enum: `"@, ident_text(attr.enum_ref)));
    match &attr.encoding {
        Some(s) => {
            push_quoted(&mut lines, "Encoding: `", s.as_str());
        },
        None => {},
    }
    let ghost l5 = texts(lines@);
    assert(l5 =~= l4 + quoted_line("Encoding: `"@, text_view(attr.encoding)));
    match &attr.repeat {
        Some(RepeatSpec::Count(e)) => {
            push_quoted(&mut lines, "Repeat-Expr: `", e.text.as_str());
        },
        Some(RepeatSpec::Eos) => {
            push_line(&mut lines, String::from_str("Repeat until end-of-stream"));
        },
        Some(RepeatSpec::Until(e)) => {
            push_quoted(&mut lines, "Repeat-Until: `", e.text.as_str());
        },
        None => {},
    }
    assert(texts(lines@) =~= l5 + repeat_line(attr.repeat));
    lines
}

/// The word for a kind of obligation.
pub open spec fn kind_word(kind: ObligationKind) -> Seq<char> {
    match kind {
        ObligationKind::Plain => "plain"@,
        ObligationKind::Computed => "computed"@,
    }
}

/// The line for one obligation.
pub open spec fn obligation_line(o: Obligation) -> Seq<char> {
    "- `"@ + o.name@ + "`: "@ + kind_word(o.kind) + "\n"@
}

/// One line for each obligation, in their order.
pub open spec fn obligation_lines(entries: Seq<Obligation>) -> Seq<char>
    decreases entries.len(),
{
    if entries.len() == 0 {
        Seq::empty()
    } else {
        obligation_lines(entries.drop_last()) + obligation_line(entries.last())
    }
}

/// A heading that names the context, and one line for each obligation.
pub open spec fn obligation_section(context: Seq<char>, entries: Seq<Obligation>) -> Seq<char> {
    "## Obligations to `"@ + context + "`\n"@ + obligation_lines(entries)
}

impl ObligationSet {
    /// The section that lists the obligations towards `context`, if there
    /// are any.
    pub fn doc(&self, context: &str) -> (r: Option<String>)
        ensures
            match r {
                Some(text) => self.entries@.len() > 0 && text@ == obligation_section(
                    context@,
                    self.entries@,
                ),
                None => self.entries@.len() == 0,
            },
    {
        if self.entries.len() == 0 {
            return None;
        }
        let mut text = String::from_str("## Obligations to `");
        text.append(context);
        text.append("`\n");
        let ghost head = text@;
        let mut i: usize = 0;
        while i < self.entries.len()
            invariant
                i <= self.entries@.len(),
                head == "## Obligations to `"@ + context@ + "`\n"@,
                text@ == head + obligation_lines(self.entries@.take(i as int)),
            decreases self.entries.len() - i,
        {
            let ghost before = text@;
            let o = &self.entries[i];
            text.append("- `");
            text.append(o.name.as_str());
            text.append("`: ");
            match o.kind {
                ObligationKind::Plain => {
                    text.append("plain");
                },
                ObligationKind::Computed => {
                    text.append("computed");
                },
            }
            text.append("\n");
            proof {
                let next = self.entries@.take(i + 1);
                assert(next.drop_last() =~= self.entries@.take(i as int));
                assert(next.last() == self.entries@[i as int]);
                assert(text@ =~= before + obligation_line(self.entries@[i as int]));
                assert(text@ =~= head + obligation_lines(next));
            }
            i += 1;
        }
        assert(self.entries@.take(i as int) =~= self.entries@);
        Some(text)
    }
}

/// The section for a list of types, if the list is not empty.
pub open spec fn list_section(
    table: Seq<SymbolView>,
    key: Seq<char>,
    ids: Seq<usize>,
) -> Seq<Seq<char>> {
    if ids.len() == 0 {
        Seq::empty()
    } else {
        seq![type_section(table, key, ids)]
    }
}

/// The section for the obligations towards `context`, if there are any.
pub open spec fn duty_section(context: Seq<char>, set: ObligationSet) -> Seq<Seq<char>> {
    if set.entries@.len() == 0 {
        Seq::empty()
    } else {
        seq![obligation_section(context, set.entries@)]
    }
}

/// The documentation of a type, piece by piece: its name as declared, its
/// own text, its parser, its further reading, then the sections for its
/// parents, its maybe-parents, what it depends on, and what it has to supply
/// as root and as parent, each where there is something to list.
pub open spec fn struct_doc(
    node: Type,
    table: Seq<SymbolView>,
    doc: Option<Seq<char>>,
    doc_ref: Option<StringOrArray>,
) -> Seq<Seq<char>> {
    seq![quoted("# Struct `"@, node.symbol.identifier@)] + plain_line(doc) + seq![
        "Parser: [`"@ + node.symbol.canonical_name@ + "`]"@,
    ] + ref_lines(doc_ref) + list_section(table, "Parents"@, node.parents@) + list_section(
        table,
        "Maybe parents"@,
        node.maybe_parents@,
    ) + list_section(table, "Depends on"@, targets(node.depends_on@)) + duty_section(
        "_root"@,
        node.root_obligations,
    ) + duty_section("_parent"@, node.parent_obligations)
}

/// Whether every type and declaration that the node names is in the table.
pub open spec fn names_listed(node: Type, table: Seq<SymbolView>) -> bool {
    &&& all_listed(table, node.parents@)
    &&& all_listed(table, node.maybe_parents@)
    &&& all_listed(table, targets(node.depends_on@))
}

/// Whether each of `ids` is an index of a table of `count` entries.
fn ids_below(ids: &Vec<usize>, count: usize) -> (b: bool)
    ensures
        b == forall|i: int| 0 <= i < ids@.len() ==> ids@[i] < count,
{
    let mut i: usize = 0;
    while i < ids.len()
        invariant
            i <= ids@.len(),
            forall|j: int| 0 <= j < i ==> ids@[j] < count,
        decreases ids.len() - i,
    {
        if ids[i] >= count {
            return false;
        }
        i += 1;
    }
    true
}

/// Whether every type and declaration that the node names is in the table.
pub fn check_listed(node: &Type, nc: &NamingContext) -> (b: bool)
    ensures
        b == names_listed(*node, nc@),
{
    let count = nc.len();
    if !ids_below(&node.parents, count) || !ids_below(&node.maybe_parents, count) {
        return false;
    }
    let mut i: usize = 0;
    while i < node.depends_on.len()
        invariant
            i <= node.depends_on@.len(),
            count == nc@.len(),
            forall|j: int| 0 <= j < i ==> targets(node.depends_on@)[j] < count,
        decreases node.depends_on.len() - i,
    {
        if node.depends_on[i].on >= count {
            assert(targets(node.depends_on@)[i as int] >= count);
            return false;
        }
        i += 1;
    }
    true
}

/// The documentation of a type, piece by piece.
pub fn doc_struct(
    self_ty: &Type,
    nc: &NamingContext,
    doc: Option<&str>,
    doc_ref: Option<&StringOrArray>,
) -> (lines: Vec<String>)
    requires
        names_listed(*self_ty, nc@),
    ensures
        texts(lines@) == struct_doc(
            *self_ty,
            nc@,
            match doc {
                Some(d) => Some(d@),
                None => None,
            },
            match doc_ref {
                Some(x) => Some(*x),
                None => None,
            },
        ),
{
    let ghost table = nc@;
    let ghost doc_view: Option<Seq<char>> = match doc {
        Some(d) => Some(d@),
        None => None,
    };
    let ghost ref_view: Option<StringOrArray> = match doc_ref {
        Some(x) => Some(*x),
        None => None,
    };
    let mut lines: Vec<String> = Vec::new();
    assert(texts(lines@) =~= Seq::<Seq<char>>::empty());
    push_quoted(&mut lines, "# Struct `", self_ty.symbol.identifier.as_str());
    let ghost l1 = texts(lines@);
    assert(l1 =~= seq![quoted("# Struct `"@, self_ty.symbol.identifier@)]);
    match doc {
        Some(d) => {
            push_line(&mut lines, String::from_str(d));
        },
        None => {},
    }
    let ghost l2 = texts(lines@);
    assert(l2 =~= l1 + plain_line(doc_view));
    let mut parser = String::from_str("Parser: [`");
    parser.append(self_ty.symbol.canonical_name.as_str());
    parser.append("`]");
    push_line(&mut lines, parser);
    let ghost l3 = texts(lines@);
    assert(l3 =~= l2 + seq!["Parser: [`"@ + self_ty.symbol.canonical_name@ + "`]"@]);
    push_refs(&mut lines, doc_ref);
    let ghost l4 = texts(lines@);
    assert(l4 =~= l3 + ref_lines(ref_view));
    match doc_type_list(nc, "Parents", &self_ty.parents) {
        Some(text) => {
            push_line(&mut lines, text);
        },
        None => {},
    }
    let ghost l5 = texts(lines@);
    assert(l5 =~= l4 + list_section(table, "Parents"@, self_ty.parents@));
    match doc_type_list(nc, "Maybe parents", &self_ty.maybe_parents) {
        Some(text) => {
            push_line(&mut lines, text);
        },
        None => {},
    }
    let ghost l6 = texts(lines@);
    assert(l6 =~= l5 + list_section(table, "Maybe parents"@, self_ty.maybe_parents@));
    match doc_type_map(nc, "Depends on", &self_ty.depends_on) {
        Some(text) => {
            push_line(&mut lines, text);
        },
        None => {},
    }
    let ghost l7 = texts(lines@);
    assert(l7 =~= l6 + list_section(table, "Depends on"@, targets(self_ty.depends_on@)));
    match self_ty.root_obligations.doc("_root") {
        Some(text) => {
            push_line(&mut lines, text);
        },
        None => {},
    }
    let ghost l8 = texts(lines@);
    assert(l8 =~= l7 + duty_section("_root"@, self_ty.root_obligations));
    match self_ty.parent_obligations.doc("_parent") {
        Some(text) => {
            push_line(&mut lines, text);
        },
        None => {},
    }
    assert(texts(lines@) =~= l8 + duty_section("_parent"@, self_ty.parent_obligations));
    lines
}

} // verus!
