use ksy_graph::compile::{compile, CompileError};
use ksy_graph::graph::{Dependency, DependencyKind, TypeGraph};
use ksy_graph::ident::Identifier;
use ksy_graph::naming::NamingContext;
use ksy_graph::obligation::{ObligationKind, ObligationSet};
use ksy_graph::reference::Context;
use ksy_graph::request::Slot;
use ksy_graph::schema::{
    Expr, FieldSpec, IntTypeRef, MetaSpec, EndianSpec, RepeatSpec, Schema, SchemaSet, TypeRef, TypeSpec,
    WellKnownTypeRef,
};

fn sc_id(s: &str) -> Identifier {
    Identifier::new(s).unwrap()
}

fn sc_field(name: &str) -> FieldSpec {
    FieldSpec::new(sc_id(name))
}

fn sc_typed(name: &str, ty: &str) -> FieldSpec {
    let mut f = sc_field(name);
    f.type_ref = Some(TypeRef::Named(ty.to_string()));
    f
}

fn sc_int(name: &str, t: IntTypeRef) -> FieldSpec {
    let mut f = sc_field(name);
    f.type_ref = Some(TypeRef::WellKnown(WellKnownTypeRef::Unsigned(t)));
    f
}

fn sc_expr(text: &str) -> Expr {
    Expr { text: text.to_string() }
}

fn sc_set(root: TypeSpec) -> SchemaSet {
    SchemaSet {
        root: Schema { meta: MetaSpec { endian: None, imports: vec![], file_extension: None }, root },
        imports: vec![],
    }
}

fn sc_gif() -> SchemaSet {
    let mut header = TypeSpec::new(sc_id("header"));
    let mut magic = sc_field("magic");
    magic.contents = Some(b"GIF".to_vec());
    let mut version = sc_field("version");
    version.size = Some(sc_expr("3"));
    header.fields = vec![magic, version];
    let mut screen = TypeSpec::new(sc_id("logical_screen"));
    screen.fields = vec![
        sc_int("image_width", IntTypeRef::Int16(EndianSpec::Implicit)),
        sc_int("image_height", IntTypeRef::Int16(EndianSpec::Implicit)),
        sc_int("flags", IntTypeRef::Int8),
        sc_int("bg_color_index", IntTypeRef::Int8),
        sc_int("pixel_aspect_ratio", IntTypeRef::Int8),
    ];
    let mut gif = TypeSpec::new(sc_id("gif"));
    gif.fields = vec![sc_typed("header", "header"), sc_typed("logical_screen", "logical_screen")];
    gif.nested_types = vec![header, screen];
    sc_set(gif)
}

fn sc_obligation(set: &ObligationSet, name: &str) -> Option<ObligationKind> {
    set.get(&sc_id(name))
}

#[test]
fn gif_header_and_screen_have_gif_as_their_only_parent() {
    let c = compile(&sc_gif()).unwrap();
    let nodes = &c.graph.nodes;
    assert_eq!(nodes.len(), 3);
    assert_eq!(nodes[0].symbol.identifier.as_str(), "gif");
    assert_eq!(nodes[1].symbol.identifier.as_str(), "header");
    assert_eq!(nodes[2].symbol.identifier.as_str(), "logical_screen");
    for j in 1..3 {
        assert_eq!(nodes[j].parents, vec![0]);
        assert!(nodes[j].maybe_parents.is_empty());
        assert!(nodes[j].root_obligations.entries.is_empty());
        assert!(nodes[j].parent_obligations.entries.is_empty());
        assert!(nodes[j].depends_on.is_empty());
        let parents = c.names.symbols_of(&nodes[j].parents);
        assert_eq!(parents.len(), 1);
        assert_eq!(parents[0].identifier.as_str(), "gif");
        assert_eq!(parents[0].canonical_name, "Gif");
        assert!(parents[0].owning_module.is_none());
    }
    assert!(nodes[0].parents.is_empty());
    assert!(nodes[0].maybe_parents.is_empty());
    assert!(nodes[0].root_obligations.entries.is_empty());
    assert!(nodes[0].parent_obligations.entries.is_empty());
    assert_eq!(
        nodes[0].depends_on,
        vec![
            Dependency { on: 1, kind: DependencyKind::Sequencing },
            Dependency { on: 2, kind: DependencyKind::Sequencing },
        ]
    );
}

#[test]
fn gif_names_are_emitted_in_camel_case() {
    let c = compile(&sc_gif()).unwrap();
    assert_eq!(c.names.len(), 3);
    assert_eq!(c.names.symbol(2).canonical_name, "LogicalScreen");
    assert_eq!(c.names.resolve("logical_screen").unwrap().canonical_name, "LogicalScreen");
}

fn sc_extension(conditional: bool) -> SchemaSet {
    let mut extension = TypeSpec::new(sc_id("extension"));
    let mut flags = sc_field("flags");
    flags.if_cond = Some(sc_expr("_parent.version > 1"));
    extension.fields = vec![flags];
    let mut file = TypeSpec::new(sc_id("file"));
    let mut ext = sc_typed("ext", "extension");
    if conditional {
        ext.if_cond = Some(sc_expr("version > 0"));
    }
    file.fields = vec![sc_field("version"), ext];
    file.nested_types = vec![extension];
    sc_set(file)
}

#[test]
fn reading_the_parent_obliges_it_and_makes_no_maybe_parent() {
    let c = compile(&sc_extension(false)).unwrap();
    let nodes = &c.graph.nodes;
    assert_eq!(nodes[0].parent_obligations.entries.len(), 1);
    assert_eq!(sc_obligation(&nodes[0].parent_obligations, "version"), Some(ObligationKind::Plain));
    assert!(nodes[0].root_obligations.entries.is_empty());
    assert_eq!(nodes[1].parents, vec![0]);
    assert!(nodes[1].maybe_parents.is_empty());
    assert!(nodes[1].parent_obligations.entries.is_empty());
}

#[test]
fn a_guarded_field_makes_a_maybe_parent() {
    let c = compile(&sc_extension(true)).unwrap();
    let nodes = &c.graph.nodes;
    assert!(nodes[1].parents.is_empty());
    assert_eq!(nodes[1].maybe_parents, vec![0]);
    assert_eq!(sc_obligation(&nodes[0].parent_obligations, "version"), Some(ObligationKind::Plain));
    assert_eq!(nodes[0].depends_on, vec![Dependency { on: 1, kind: DependencyKind::Sequencing }]);
}

#[test]
fn a_repeated_field_may_be_absent_unless_repeated_until() {
    for (repeat, maybe) in [
        (RepeatSpec::Count(sc_expr("n")), true),
        (RepeatSpec::Eos, true),
        (RepeatSpec::Until(sc_expr("_.last")), false),
    ] {
        let mut item = TypeSpec::new(sc_id("item"));
        item.fields = vec![sc_field("x")];
        let mut list = TypeSpec::new(sc_id("list"));
        let mut items = sc_typed("items", "item");
        items.repeat = Some(repeat);
        list.fields = vec![items];
        list.nested_types = vec![item];
        let c = compile(&sc_set(list)).unwrap();
        if maybe {
            assert!(c.graph.nodes[1].parents.is_empty());
            assert_eq!(c.graph.nodes[1].maybe_parents, vec![0]);
        } else {
            assert_eq!(c.graph.nodes[1].parents, vec![0]);
            assert!(c.graph.nodes[1].maybe_parents.is_empty());
        }
    }
}

#[test]
fn an_unconditional_member_wins_over_a_conditional_one() {
    let mut item = TypeSpec::new(sc_id("item"));
    item.fields = vec![sc_field("x")];
    let mut top = TypeSpec::new(sc_id("top"));
    let mut second = sc_typed("second", "item");
    second.if_cond = Some(sc_expr("true"));
    top.fields = vec![second, sc_typed("first", "item")];
    top.nested_types = vec![item];
    let c = compile(&sc_set(top)).unwrap();
    assert_eq!(c.graph.nodes[1].parents, vec![0]);
    assert!(c.graph.nodes[1].maybe_parents.is_empty());
}

#[test]
fn a_missing_root_value_is_reported_once() {
    let mut inner = TypeSpec::new(sc_id("inner"));
    let mut f = sc_field("payload");
    f.size = Some(sc_expr("_root.missing_value"));
    inner.fields = vec![f];
    let mut top = TypeSpec::new(sc_id("top"));
    top.fields = vec![sc_field("len"), sc_typed("body", "inner")];
    top.nested_types = vec![inner];
    match compile(&sc_set(top)) {
        Err(CompileError::Obligations(errors)) => {
            assert_eq!(errors.len(), 1);
            assert_eq!(errors[0].name.as_str(), "missing_value");
            assert_eq!(errors[0].context, Context::Root);
            assert_eq!(errors[0].in_type, 1);
            assert_eq!(errors[0].member, 0);
            assert_eq!(errors[0].field.as_str(), "payload");
            assert_eq!(errors[0].slot, Slot::Size);
            assert_eq!(errors[0].offset, 0);
        },
        other => panic!("expected one dangling obligation, got {:?}", other),
    }
}

#[test]
fn a_declared_root_value_is_an_obligation_of_the_root() {
    let mut inner = TypeSpec::new(sc_id("inner"));
    let mut f = sc_field("payload");
    f.size = Some(sc_expr("_root.len * 2"));
    inner.fields = vec![f];
    let mut middle = TypeSpec::new(sc_id("middle"));
    middle.fields = vec![sc_typed("body", "inner")];
    middle.nested_types = vec![inner];
    let mut top = TypeSpec::new(sc_id("top"));
    top.fields = vec![sc_field("len"), sc_typed("mid", "middle")];
    top.nested_types = vec![middle];
    let c = compile(&sc_set(top)).unwrap();
    let nodes = &c.graph.nodes;
    assert_eq!(nodes[2].symbol.identifier.as_str(), "inner");
    assert_eq!(sc_obligation(&nodes[0].root_obligations, "len"), Some(ObligationKind::Plain));
    assert_eq!(nodes[0].root_obligations.entries.len(), 1);
    assert!(nodes[1].root_obligations.entries.is_empty());
    assert!(nodes[2].root_obligations.entries.is_empty());
}

fn sc_shared() -> SchemaSet {
    let mut shared = TypeSpec::new(sc_id("shared"));
    let mut f = sc_field("data");
    f.size = Some(sc_expr("_parent.len"));
    shared.fields = vec![f];
    let mut a = TypeSpec::new(sc_id("a"));
    a.fields = vec![sc_field("len"), sc_typed("body", "shared")];
    let mut b = TypeSpec::new(sc_id("b"));
    let mut len = sc_field("len");
    len.if_cond = Some(sc_expr("true"));
    let mut body = sc_typed("body", "shared");
    body.if_cond = Some(sc_expr("len > 0"));
    b.fields = vec![len, body];
    let mut top = TypeSpec::new(sc_id("top"));
    top.fields = vec![sc_typed("first", "a"), sc_typed("second", "b")];
    top.nested_types = vec![a, b, shared];
    sc_set(top)
}

#[test]
fn a_request_to_the_parent_reaches_every_containing_type() {
    let c = compile(&sc_shared()).unwrap();
    let nodes = &c.graph.nodes;
    assert_eq!(nodes[3].symbol.identifier.as_str(), "shared");
    assert_eq!(nodes[3].parents, vec![1]);
    assert_eq!(nodes[3].maybe_parents, vec![2]);
    assert_eq!(sc_obligation(&nodes[1].parent_obligations, "len"), Some(ObligationKind::Plain));
    assert_eq!(sc_obligation(&nodes[2].parent_obligations, "len"), Some(ObligationKind::Computed));
    assert!(nodes[0].parent_obligations.entries.is_empty());
    assert!(nodes[3].parent_obligations.entries.is_empty());
}

#[test]
fn resolving_twice_changes_nothing() {
    let set = sc_shared();
    let decls = set.flatten();
    let names = NamingContext::build(&decls).unwrap();
    let mut once = TypeGraph::build(&names, &decls);
    assert_eq!(once.resolve_obligations(&decls), Ok(()));
    let mut twice = TypeGraph::build(&names, &decls);
    assert_eq!(twice.resolve_obligations(&decls), Ok(()));
    assert_eq!(twice.resolve_obligations(&decls), Ok(()));
    assert_eq!(once, twice);
    assert_eq!(twice.nodes[1].parent_obligations.entries.len(), 1);
}

#[test]
fn a_parent_that_lacks_the_value_is_obliged_all_the_same() {
    let mut shared = TypeSpec::new(sc_id("shared"));
    let mut f = sc_field("data");
    f.size = Some(sc_expr("_parent.len"));
    shared.fields = vec![f];
    let mut a = TypeSpec::new(sc_id("a"));
    a.fields = vec![sc_field("len"), sc_typed("body", "shared")];
    let mut b = TypeSpec::new(sc_id("b"));
    b.fields = vec![sc_typed("body", "shared")];
    let mut top = TypeSpec::new(sc_id("top"));
    top.fields = vec![sc_typed("first", "a"), sc_typed("second", "b")];
    top.nested_types = vec![a, b, shared];
    let c = compile(&sc_set(top)).unwrap();
    assert_eq!(sc_obligation(&c.graph.nodes[1].parent_obligations, "len"), Some(ObligationKind::Plain));
    assert_eq!(sc_obligation(&c.graph.nodes[2].parent_obligations, "len"), Some(ObligationKind::Plain));
}

#[test]
fn asking_a_parent_that_no_type_is_dangles() {
    let mut top = TypeSpec::new(sc_id("top"));
    let mut f = sc_field("data");
    f.if_cond = Some(sc_expr("_parent.flag"));
    top.fields = vec![sc_field("flag"), f];
    match compile(&sc_set(top)) {
        Err(CompileError::Obligations(errors)) => {
            assert_eq!(errors.len(), 1);
            assert_eq!(errors[0].name.as_str(), "flag");
            assert_eq!(errors[0].context, Context::Parent);
            assert_eq!(errors[0].in_type, 0);
            assert_eq!(errors[0].member, 1);
            assert_eq!(errors[0].slot, Slot::Condition);
        },
        other => panic!("expected one dangling obligation, got {:?}", other),
    }
}

#[test]
fn all_dangling_references_are_reported_together() {
    let mut inner = TypeSpec::new(sc_id("inner"));
    let mut f = sc_field("payload");
    f.if_cond = Some(sc_expr("_root.a > _root.b"));
    f.size = Some(sc_expr("_parent.c + _root.len"));
    inner.fields = vec![f];
    let mut top = TypeSpec::new(sc_id("top"));
    top.fields = vec![sc_field("len"), sc_typed("body", "inner")];
    top.nested_types = vec![inner];
    match compile(&sc_set(top)) {
        Err(CompileError::Obligations(errors)) => {
            let names: Vec<&str> = errors.iter().map(|e| e.name.as_str()).collect();
            assert_eq!(names, vec!["a", "b", "c"]);
            assert_eq!(errors[1].offset, 10);
        },
        other => panic!("expected dangling obligations, got {:?}", other),
    }
}

#[test]
fn an_instance_is_supplied_as_computed() {
    let mut inner = TypeSpec::new(sc_id("inner"));
    let mut f = sc_field("payload");
    f.size = Some(sc_expr("_parent.total"));
    inner.fields = vec![f];
    let mut top = TypeSpec::new(sc_id("top"));
    top.fields = vec![sc_typed("body", "inner")];
    top.instances = vec![sc_field("total")];
    top.nested_types = vec![inner];
    let c = compile(&sc_set(top)).unwrap();
    assert_eq!(sc_obligation(&c.graph.nodes[0].parent_obligations, "total"), Some(ObligationKind::Computed));
}

#[test]
fn an_instance_of_a_type_makes_a_maybe_parent() {
    let mut inner = TypeSpec::new(sc_id("inner"));
    inner.fields = vec![sc_field("x")];
    let mut top = TypeSpec::new(sc_id("top"));
    top.instances = vec![sc_typed("lazy", "inner")];
    top.nested_types = vec![inner];
    let c = compile(&sc_set(top)).unwrap();
    assert!(c.graph.nodes[1].parents.is_empty());
    assert_eq!(c.graph.nodes[1].maybe_parents, vec![0]);
}

#[test]
fn a_type_that_holds_itself_does_not_depend_on_itself() {
    let mut node = TypeSpec::new(sc_id("node"));
    let mut next = sc_typed("next", "node");
    next.if_cond = Some(sc_expr("has_next"));
    node.fields = vec![sc_field("has_next"), next];
    let c = compile(&sc_set(node)).unwrap();
    assert!(c.graph.nodes[0].depends_on.is_empty());
    assert_eq!(c.graph.nodes[0].maybe_parents, vec![0]);
    assert!(c.graph.nodes[0].parents.is_empty());
}

#[test]
fn types_that_hold_each_other_are_resolved_in_one_pass() {
    let mut a = TypeSpec::new(sc_id("a"));
    let mut to_b = sc_typed("b_part", "b");
    to_b.if_cond = Some(sc_expr("_parent.depth < _root.limit"));
    a.fields = vec![sc_field("depth"), to_b];
    let mut b = TypeSpec::new(sc_id("b"));
    let mut to_a = sc_typed("a_part", "a");
    to_a.size = Some(sc_expr("_parent.depth"));
    b.fields = vec![sc_field("depth"), to_a];
    let mut top = TypeSpec::new(sc_id("top"));
    top.fields = vec![sc_field("limit"), sc_field("depth"), sc_typed("first", "a")];
    top.nested_types = vec![a, b];
    let c = compile(&sc_set(top)).unwrap();
    let nodes = &c.graph.nodes;
    assert_eq!(nodes[1].parents, vec![0, 2]);
    assert!(nodes[1].maybe_parents.is_empty());
    assert!(nodes[2].parents.is_empty());
    assert_eq!(nodes[2].maybe_parents, vec![1]);
    assert_eq!(nodes[1].depends_on, vec![Dependency { on: 2, kind: DependencyKind::Sequencing }]);
    assert_eq!(nodes[2].depends_on, vec![Dependency { on: 1, kind: DependencyKind::Sequencing }]);
    assert_eq!(sc_obligation(&nodes[0].root_obligations, "limit"), Some(ObligationKind::Plain));
    assert_eq!(sc_obligation(&nodes[0].parent_obligations, "depth"), Some(ObligationKind::Plain));
    assert_eq!(sc_obligation(&nodes[2].parent_obligations, "depth"), Some(ObligationKind::Plain));
    assert_eq!(sc_obligation(&nodes[1].parent_obligations, "depth"), Some(ObligationKind::Plain));
    assert_eq!(nodes[0].parent_obligations.entries.len(), 1);
    assert_eq!(nodes[0].root_obligations.entries.len(), 1);
}

#[test]
fn an_imported_type_is_reached_by_its_full_name() {
    let mut part = TypeSpec::new(sc_id("part"));
    let mut f = sc_field("data");
    f.size = Some(sc_expr("_root.len"));
    part.fields = vec![f];
    let mut lib = TypeSpec::new(sc_id("lib"));
    lib.nested_types = vec![part];
    let mut top = TypeSpec::new(sc_id("top"));
    top.fields = vec![sc_field("len"), sc_typed("body", "lib::part"), sc_typed("again", "part")];
    let meta = || MetaSpec { endian: None, imports: vec!["lib".to_string()], file_extension: None };
    let set = SchemaSet {
        root: Schema { meta: meta(), root: top },
        imports: vec![Schema { meta: meta(), root: lib }],
    };
    let c = compile(&set).unwrap();
    let nodes = &c.graph.nodes;
    assert_eq!(nodes.len(), 3);
    assert_eq!(nodes[2].symbol.owning_module, Some(sc_id("lib")));
    assert_eq!(nodes[2].parents, vec![0]);
    assert_eq!(nodes[0].depends_on, vec![Dependency { on: 2, kind: DependencyKind::Sequencing }]);
    assert_eq!(sc_obligation(&nodes[0].root_obligations, "len"), Some(ObligationKind::Plain));
    assert!(nodes[1].root_obligations.entries.is_empty());
}

#[test]
fn a_node_is_found_by_the_name_of_its_type() {
    let c = compile(&sc_gif()).unwrap();
    assert_eq!(c.node("logical_screen").unwrap().symbol.canonical_name, "LogicalScreen");
    assert_eq!(c.node("gif").unwrap().depends_on.len(), 2);
    assert!(c.node("missing").is_none());
    assert!(c.node("").is_none());
}
