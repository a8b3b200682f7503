use ksy_graph::compile::compile;
use ksy_graph::doc::{check_listed, doc_attr, doc_struct, doc_type_list, doc_type_map, doc_type_seq};
use ksy_graph::graph::{Dependency, DependencyKind, ResolutionState, TypeGraph};
use ksy_graph::ident::Identifier;
use ksy_graph::naming::NamingContext;
use ksy_graph::obligation::{stricter_of, ObligationKind, ObligationSet};
use ksy_graph::reference::{find_references, Context, Reference};
use ksy_graph::request::{scan_requests, Slot};
use ksy_graph::schema::{
    Expr, FieldSpec, MetaSpec, RepeatSpec, Schema, SchemaSet, StringOrArray, TypeRef, TypeSpec,
};
use ksy_graph::text::to_chars;

fn tx_id(s: &str) -> Identifier {
    Identifier::new(s).unwrap()
}

fn tx_expr(text: &str) -> Expr {
    Expr { text: text.to_string() }
}

fn tx_refs(text: &str) -> Vec<(Context, String, usize)> {
    find_references(&to_chars(text))
        .into_iter()
        .map(|r: Reference| (r.context, r.name.as_str().to_string(), r.offset))
        .collect()
}

#[test]
fn references_are_found_where_they_stand() {
    assert_eq!(tx_refs("_parent.version > 1"), vec![(Context::Parent, "version".to_string(), 0)]);
    assert_eq!(
        tx_refs("_root.len + _parent.count*2"),
        vec![(Context::Root, "len".to_string(), 0), (Context::Parent, "count".to_string(), 12)]
    );
    assert_eq!(tx_refs("(_root.a)"), vec![(Context::Root, "a".to_string(), 1)]);
    assert_eq!(tx_refs("_root.a_1.b"), vec![(Context::Root, "a_1".to_string(), 0)]);
    assert_eq!(tx_refs("\u{e9}_root.x"), vec![(Context::Root, "x".to_string(), 1)]);
    assert_eq!(tx_refs("-_parent.x"), vec![(Context::Parent, "x".to_string(), 1)]);
}

#[test]
fn what_only_looks_like_a_reference_is_passed_over() {
    for text in [
        "",
        "version > 1",
        "_root",
        "_root.",
        "_parent",
        "_parent. x",
        "x_root.a",
        "a._root.b",
        "_rootx.a",
        "_root.A",
        "_root.aB",
        "_root._io",
        "_root.1a",
        "_parent._parent.x",
        "_Root.a",
        "_parents.a",
        "9_root.a",
        "_root .a",
    ] {
        assert_eq!(tx_refs(text), vec![], "{:?}", text);
    }
}

#[test]
fn requests_are_read_slot_by_slot() {
    let mut f = FieldSpec::new(tx_id("f"));
    f.contents = Some(b"_root.d".to_vec());
    f.repeat = Some(RepeatSpec::Until(tx_expr("_parent.c")));
    f.size = Some(tx_expr("_root.b"));
    f.if_cond = Some(tx_expr("_root.a"));
    let mut g = FieldSpec::new(tx_id("g"));
    g.repeat = Some(RepeatSpec::Count(tx_expr("_root.e")));
    let mut h = FieldSpec::new(tx_id("h"));
    h.repeat = Some(RepeatSpec::Eos);
    let mut lazy = FieldSpec::new(tx_id("lazy"));
    lazy.size = Some(tx_expr("_parent.z"));
    let mut top = TypeSpec::new(tx_id("top"));
    top.fields = vec![f, g, h];
    top.instances = vec![lazy];
    let set = SchemaSet {
        root: Schema { meta: MetaSpec { endian: None, imports: vec![], file_extension: None }, root: top },
        imports: vec![],
    };
    let decls = set.flatten();
    let found: Vec<(usize, usize, Slot, usize, Context, String)> = scan_requests(&decls)
        .into_iter()
        .map(|r| (r.source, r.member, r.slot, r.offset, r.context, r.name.as_str().to_string()))
        .collect();
    assert_eq!(
        found,
        vec![
            (0, 0, Slot::Condition, 0, Context::Root, "a".to_string()),
            (0, 0, Slot::Size, 0, Context::Root, "b".to_string()),
            (0, 0, Slot::Repeat, 0, Context::Parent, "c".to_string()),
            (0, 0, Slot::Contents, 0, Context::Root, "d".to_string()),
            (0, 1, Slot::Repeat, 0, Context::Root, "e".to_string()),
            (0, 3, Slot::Size, 0, Context::Parent, "z".to_string()),
        ]
    );
}

#[test]
fn the_stricter_kind_stays() {
    assert_eq!(stricter_of(ObligationKind::Plain, ObligationKind::Plain), ObligationKind::Plain);
    assert_eq!(stricter_of(ObligationKind::Plain, ObligationKind::Computed), ObligationKind::Computed);
    assert_eq!(stricter_of(ObligationKind::Computed, ObligationKind::Plain), ObligationKind::Computed);
    assert_eq!(stricter_of(ObligationKind::Computed, ObligationKind::Computed), ObligationKind::Computed);
    let mut set = ObligationSet::new();
    assert_eq!(set.get(&tx_id("a")), None);
    set.require(&tx_id("a"), ObligationKind::Plain);
    set.require(&tx_id("b"), ObligationKind::Computed);
    set.require(&tx_id("a"), ObligationKind::Plain);
    assert_eq!(set.entries.len(), 2);
    assert_eq!(set.get(&tx_id("a")), Some(ObligationKind::Plain));
    set.require(&tx_id("a"), ObligationKind::Computed);
    set.require(&tx_id("b"), ObligationKind::Plain);
    set.require(&tx_id("a"), ObligationKind::Plain);
    assert_eq!(set.entries.len(), 2);
    assert_eq!(set.get(&tx_id("a")), Some(ObligationKind::Computed));
    assert_eq!(set.get(&tx_id("b")), Some(ObligationKind::Computed));
    assert_eq!(set.position(&tx_id("b")), Some(1));
    assert_eq!(set.position(&tx_id("c")), None);
}

#[test]
fn a_type_tells_how_it_supplies_a_value() {
    let mut guarded = FieldSpec::new(tx_id("guarded"));
    guarded.if_cond = Some(tx_expr("true"));
    let mut repeated = FieldSpec::new(tx_id("repeated"));
    repeated.repeat = Some(RepeatSpec::Eos);
    let mut top = TypeSpec::new(tx_id("top"));
    top.fields = vec![FieldSpec::new(tx_id("plain")), guarded, repeated];
    top.instances = vec![FieldSpec::new(tx_id("lazy"))];
    top.params = vec![ksy_graph::schema::ParamSpec { id: tx_id("given"), type_ref: None, doc: None }];
    assert_eq!(top.value_kind(&tx_id("plain")), (true, ObligationKind::Plain));
    assert_eq!(top.value_kind(&tx_id("guarded")), (true, ObligationKind::Computed));
    assert_eq!(top.value_kind(&tx_id("repeated")), (true, ObligationKind::Plain));
    assert_eq!(top.value_kind(&tx_id("lazy")), (true, ObligationKind::Computed));
    assert_eq!(top.value_kind(&tx_id("given")), (true, ObligationKind::Plain));
    assert_eq!(top.value_kind(&tx_id("absent")), (false, ObligationKind::Plain));
    assert_eq!(top.member_count(), 4);
    assert_eq!(top.member(3).id.as_str(), "lazy");
    assert!(top.is_optional(1) && top.is_optional(2) && top.is_optional(3) && !top.is_optional(0));
}

#[test]
fn a_field_is_documented_line_by_line() {
    let mut f = FieldSpec::new(tx_id("flags"));
    assert_eq!(doc_attr(&f), Vec::<String>::new());
    f.doc = Some("The flags.".to_string());
    f.doc_ref = Some(StringOrArray::Array(vec!["ref one".to_string(), "ref two".to_string()]));
    f.if_cond = Some(tx_expr("_parent.version > 1"));
    f.size = Some(tx_expr("3"));
    f.enum_ref = Some(tx_id("color"));
    f.encoding = Some("UTF-8".to_string());
    f.repeat = Some(RepeatSpec::Count(tx_expr("n + 1")));
    assert_eq!(
        doc_attr(&f),
        vec![
            "The flags.",
            "ref one",
            "ref two",
            "If: `_parent.version > 1`",
            "Size: `3`",
            "Enum: `color`",
            "Encoding: `UTF-8`",
            "Repeat-Expr: `n + 1`",
        ]
    );
    let mut g = FieldSpec::new(tx_id("rest"));
    g.doc_ref = Some(StringOrArray::String("only".to_string()));
    g.repeat = Some(RepeatSpec::Eos);
    assert_eq!(doc_attr(&g), vec!["only", "Repeat until end-of-stream"]);
    g.repeat = Some(RepeatSpec::Until(tx_expr("_.done")));
    g.doc_ref = None;
    assert_eq!(doc_attr(&g), vec!["Repeat-Until: `_.done`"]);
}

#[test]
fn sections_link_to_symbols_with_their_module() {
    let mut ctx = NamingContext::new();
    ctx.register(None, tx_id("logical_screen")).unwrap();
    ctx.register(Some(tx_id("common")), tx_id("header")).unwrap();
    assert_eq!(
        doc_type_seq(&ctx, "Parents", &vec![1, 0]),
        "## Parents\n- [`common::Header`]\n- [`LogicalScreen`]\n"
    );
    assert_eq!(doc_type_seq(&ctx, "Parents", &vec![]), "## Parents\n");
    assert_eq!(doc_type_list(&ctx, "Maybe parents", &vec![]), None);
    assert_eq!(
        doc_type_list(&ctx, "Maybe parents", &vec![0]),
        Some("## Maybe parents\n- [`LogicalScreen`]\n".to_string())
    );
    assert_eq!(doc_type_map(&ctx, "Depends on", &vec![]), None);
    assert_eq!(
        doc_type_map(
            &ctx,
            "Depends on",
            &vec![
                Dependency { on: 1, kind: DependencyKind::Sequencing },
                Dependency { on: 0, kind: DependencyKind::Parameter },
            ]
        ),
        Some("## Depends on\n- [`common::Header`]\n- [`LogicalScreen`]\n".to_string())
    );
}

#[test]
fn obligations_are_listed_with_their_kind() {
    let mut set = ObligationSet::new();
    assert_eq!(set.doc("_root"), None);
    set.require(&tx_id("version"), ObligationKind::Plain);
    set.require(&tx_id("total"), ObligationKind::Computed);
    assert_eq!(
        set.doc("_parent"),
        Some("## Obligations to `_parent`\n- `version`: plain\n- `total`: computed\n".to_string())
    );
}

#[test]
fn a_type_is_documented_with_its_relations() {
    let mut extension = TypeSpec::new(tx_id("extension"));
    let mut flags = FieldSpec::new(tx_id("flags"));
    flags.if_cond = Some(tx_expr("_parent.version > 1 && _root.magic"));
    extension.fields = vec![flags];
    let mut file = TypeSpec::new(tx_id("file"));
    let mut ext = FieldSpec::new(tx_id("ext"));
    ext.type_ref = Some(TypeRef::Named("extension".to_string()));
    let mut more = FieldSpec::new(tx_id("more"));
    more.type_ref = Some(TypeRef::Named("file".to_string()));
    more.if_cond = Some(tx_expr("version > 2"));
    file.fields = vec![FieldSpec::new(tx_id("magic")), FieldSpec::new(tx_id("version")), ext, more];
    file.nested_types = vec![extension];
    let set = SchemaSet {
        root: Schema { meta: MetaSpec { endian: None, imports: vec![], file_extension: None }, root: file },
        imports: vec![],
    };
    let c = compile(&set).unwrap();
    assert!(check_listed(&c.graph.nodes[0], &c.names));
    assert!(check_listed(&c.graph.nodes[1], &c.names));
    let refs = StringOrArray::String("see the manual".to_string());
    assert_eq!(
        doc_struct(&c.graph.nodes[0], &c.names, Some("A file."), Some(&refs)),
        vec![
            "# Struct `file`",
            "A file.",
            "Parser: [`File`]",
            "see the manual",
            "## Maybe parents\n- [`File`]\n",
            "## Depends on\n- [`Extension`]\n",
            "## Obligations to `_root`\n- `magic`: plain\n",
            "## Obligations to `_parent`\n- `version`: plain\n",
        ]
    );
    assert_eq!(
        doc_struct(&c.graph.nodes[1], &c.names, None, None),
        vec!["# Struct `extension`", "Parser: [`Extension`]", "## Parents\n- [`File`]\n"]
    );
}

#[test]
fn a_node_that_names_what_the_table_lacks_is_told() {
    let c = compile(&SchemaSet {
        root: Schema {
            meta: MetaSpec { endian: None, imports: vec![], file_extension: None },
            root: TypeSpec::new(tx_id("top")),
        },
        imports: vec![],
    })
    .unwrap();
    let empty = NamingContext::new();
    assert!(check_listed(&c.graph.nodes[0], &empty));
    let mut graph = c.graph;
    graph.nodes[0].depends_on.push(Dependency { on: 7, kind: DependencyKind::EnumReference });
    assert!(!check_listed(&graph.nodes[0], &c.names));
    graph.nodes[0].depends_on.clear();
    graph.nodes[0].parents.push(1);
    assert!(!check_listed(&graph.nodes[0], &c.names));
}

#[test]
fn lines_of_further_reading_are_counted() {
    let one = StringOrArray::String("a".to_string());
    let many = StringOrArray::Array(vec!["a".to_string(), "b".to_string()]);
    assert_eq!(one.len(), 1);
    assert_eq!(one.line(0), "a");
    assert_eq!(many.len(), 2);
    assert_eq!(many.line(1), "b");
    assert_eq!(StringOrArray::Array(vec![]).len(), 0);
}

#[test]
fn relations_are_handed_on_as_symbols() {
    let mut inner = TypeSpec::new(tx_id("inner"));
    let mut f = FieldSpec::new(tx_id("data"));
    f.size = Some(tx_expr("_parent.len + _parent.lazy_total"));
    f.enum_ref = Some(tx_id("color"));
    inner.fields = vec![f];
    inner.enums = vec![ksy_graph::schema::EnumSpec { name: tx_id("color"), values: vec![] }];
    let mut lib = TypeSpec::new(tx_id("lib"));
    let mut body = FieldSpec::new(tx_id("body"));
    body.type_ref = Some(TypeRef::Named("inner".to_string()));
    lib.fields = vec![FieldSpec::new(tx_id("len")), body];
    lib.instances = vec![FieldSpec::new(tx_id("lazy_total"))];
    lib.nested_types = vec![inner];
    let mut top = TypeSpec::new(tx_id("top"));
    let mut used = FieldSpec::new(tx_id("used"));
    used.type_ref = Some(TypeRef::Named("lib".to_string()));
    top.fields = vec![used];
    let meta = || MetaSpec { endian: None, imports: vec![], file_extension: None };
    let set = SchemaSet {
        root: Schema { meta: meta(), root: top },
        imports: vec![Schema { meta: meta(), root: lib }],
    };
    let c = compile(&set).unwrap();
    let s = ksy_graph::summary::summarize(&c.graph.nodes[1], &c.names);
    assert_eq!(s.symbol.canonical_name, "Lib");
    assert_eq!(s.symbol.owning_module, Some(tx_id("lib")));
    assert_eq!(s.parents.len(), 1);
    assert_eq!(s.parents[0].canonical_name, "Top");
    assert_eq!(s.parents[0].owning_module, None);
    assert!(s.maybe_parents.is_empty());
    assert_eq!(s.depends_on.len(), 1);
    assert_eq!(s.depends_on[0].on.canonical_name, "Inner");
    assert_eq!(s.depends_on[0].kind, DependencyKind::Sequencing);
    assert!(s.root_obligations.is_empty());
    let wanted: Vec<(&str, &str, Option<&str>, ObligationKind)> = s
        .parent_obligations
        .iter()
        .map(|o| {
            (
                o.value.identifier.as_str(),
                o.value.canonical_name.as_str(),
                o.value.owning_module.as_ref().map(|m| m.as_str()),
                o.kind,
            )
        })
        .collect();
    assert_eq!(
        wanted,
        vec![
            ("len", "len", Some("lib"), ObligationKind::Plain),
            ("lazy_total", "lazy_total", Some("lib"), ObligationKind::Computed),
        ]
    );
    let inner_summary = ksy_graph::summary::summarize(&c.graph.nodes[2], &c.names);
    assert_eq!(inner_summary.depends_on.len(), 1);
    assert_eq!(inner_summary.depends_on[0].on.canonical_name, "Color");
    assert_eq!(inner_summary.depends_on[0].on.owning_module, Some(tx_id("lib")));
    assert_eq!(inner_summary.depends_on[0].kind, DependencyKind::EnumReference);
    assert_eq!(inner_summary.parents[0].canonical_name, "Lib");
}

#[test]
fn a_graph_is_resolved_only_when_nothing_dangles() {
    let mut top = TypeSpec::new(tx_id("top"));
    let mut f = FieldSpec::new(tx_id("data"));
    f.size = Some(tx_expr("_root.len"));
    top.fields = vec![f];
    let meta = MetaSpec { endian: None, imports: vec![], file_extension: None };
    let set = SchemaSet { root: Schema { meta, root: top }, imports: vec![] };
    let decls = set.flatten();
    assert!(ksy_graph::schema::check_countable(&decls));
    let names = NamingContext::build(&decls).unwrap();
    let mut graph = TypeGraph::build(&names, &decls);
    assert_eq!(graph.state, ResolutionState::Unvisited);
    let errors = graph.resolve_obligations(&decls).unwrap_err();
    assert_eq!(errors.len(), 1);
    assert_eq!(graph.state, ResolutionState::InProgress);
    assert_eq!(graph.nodes[0].root_obligations.get(&tx_id("len")), Some(ObligationKind::Plain));
    let c = compile(&SchemaSet {
        root: Schema {
            meta: MetaSpec { endian: None, imports: vec![], file_extension: None },
            root: TypeSpec::new(tx_id("top")),
        },
        imports: vec![],
    })
    .unwrap();
    assert_eq!(c.graph.state, ResolutionState::Resolved);
}
