use ksy_graph::compile::{compile, CompileError};
use ksy_graph::graph::{Dependency, DependencyKind};
use ksy_graph::ident::Identifier;
use ksy_graph::linking::{check_references, Site};
use ksy_graph::naming::{NameError, NamingContext};
use ksy_graph::schema::{
    EnumSpec, EnumValueSpec, FieldSpec, MetaSpec, ParamSpec, Schema, SchemaSet, TypeRef, TypeSpec,
};
use ksy_graph::text::{chars_of_bytes, string_of, to_chars};

fn nm_id(s: &str) -> Identifier {
    Identifier::new(s).unwrap()
}

fn nm_typed(name: &str, ty: &str) -> FieldSpec {
    let mut f = FieldSpec::new(nm_id(name));
    f.type_ref = Some(TypeRef::Named(ty.to_string()));
    f
}

fn nm_schema(root: TypeSpec) -> Schema {
    Schema { meta: MetaSpec { endian: None, imports: vec![], file_extension: None }, root }
}

fn nm_enum(name: &str) -> EnumSpec {
    EnumSpec { name: nm_id(name), values: vec![EnumValueSpec { id: nm_id("one"), value: 1, doc: None }] }
}

#[test]
fn identifiers_follow_the_spelling_rule() {
    for good in ["a", "gif", "logical_screen", "x1", "a_", "a__b", "z9_"] {
        assert_eq!(Identifier::new(good).unwrap().as_str(), good);
    }
    for bad in ["", "_root", "_a", "1a", "A", "aB", "a-b", "a b", "a::b", "a.b", "\u{e9}", "a\u{e9}"] {
        assert!(Identifier::new(bad).is_none(), "{:?}", bad);
    }
}

#[test]
fn emitted_names_drop_underscores_and_capitalize() {
    for (name, emitted) in [
        ("gif", "Gif"),
        ("logical_screen", "LogicalScreen"),
        ("a", "A"),
        ("a_b_c", "ABC"),
        ("x1", "X1"),
        ("a_1b", "A1b"),
        ("foo__bar", "FooBar"),
        ("foo_", "Foo"),
        ("pixel_aspect_ratio", "PixelAspectRatio"),
    ] {
        assert_eq!(nm_id(name).emitted_name(), emitted);
    }
}

#[test]
fn identifiers_compare_by_spelling() {
    assert!(nm_id("abc").same(&nm_id("abc")));
    assert!(!nm_id("abc").same(&nm_id("abd")));
    assert!(nm_id("abc").spells(&"abc".to_string()));
    assert!(!nm_id("abc").spells(&"ab".to_string()));
    assert_eq!(nm_id("abc").clone(), nm_id("abc"));
}

#[test]
fn text_helpers_keep_every_character() {
    assert_eq!(to_chars("a\u{e9}z"), vec!['a', '\u{e9}', 'z']);
    assert_eq!(chars_of_bytes(&vec![71, 73, 70, 0, 255]), vec!['G', 'I', 'F', '\0', '\u{ff}']);
    let chars = to_chars("_root.len");
    assert_eq!(string_of(&chars, 6, 9), "len");
    assert_eq!(string_of(&chars, 0, 0), "");
    assert_eq!(Identifier::from_chars(&chars, 6, 9).unwrap().as_str(), "len");
    assert!(Identifier::from_chars(&chars, 0, 5).is_none());
}

#[test]
fn a_registered_name_resolves_to_the_same_symbol_every_time() {
    let mut ctx = NamingContext::new();
    let local = ctx.register(None, nm_id("logical_screen")).unwrap();
    let imported = ctx.register(Some(nm_id("common")), nm_id("header")).unwrap();
    assert_eq!(local.canonical_name, "LogicalScreen");
    assert!(local.owning_module.is_none());
    assert_eq!(imported.canonical_name, "Header");
    assert_eq!(imported.owning_module, Some(nm_id("common")));
    for _ in 0..3 {
        assert_eq!(ctx.resolve("logical_screen"), Ok(local.clone()));
        assert_eq!(ctx.resolve("header"), Ok(imported.clone()));
        assert_eq!(ctx.resolve("common::header"), Ok(imported.clone()));
        assert_eq!(ctx.resolve_id("logical_screen"), Ok(0));
        assert_eq!(ctx.resolve_id("common::header"), Ok(1));
    }
    ctx.register(Some(nm_id("other")), nm_id("footer")).unwrap();
    assert_eq!(ctx.resolve("logical_screen"), Ok(local));
    assert_eq!(ctx.resolve("common::header"), Ok(imported));
    assert_eq!(ctx.len(), 3);
}

#[test]
fn a_second_claim_on_a_canonical_name_is_refused() {
    let mut ctx = NamingContext::new();
    let first = ctx.register(None, nm_id("foo_bar")).unwrap();
    assert_eq!(
        ctx.register(None, nm_id("foo_bar")),
        Err(NameError::Duplicate { existing: first.clone(), rejected: nm_id("foo_bar") })
    );
    assert_eq!(
        ctx.register(None, nm_id("foo__bar")),
        Err(NameError::Duplicate { existing: first, rejected: nm_id("foo__bar") })
    );
    assert_eq!(ctx.len(), 1);
    assert!(ctx.register(Some(nm_id("m")), nm_id("foo_bar")).is_ok());
    assert!(ctx.register(None, nm_id("foo_baz")).is_ok());
    assert_eq!(ctx.len(), 3);
}

#[test]
fn unknown_and_ambiguous_names_are_told_apart() {
    let mut ctx = NamingContext::new();
    ctx.register(Some(nm_id("m1")), nm_id("shared")).unwrap();
    ctx.register(Some(nm_id("m2")), nm_id("shared")).unwrap();
    ctx.register(Some(nm_id("m1")), nm_id("single")).unwrap();
    assert_eq!(ctx.resolve("missing"), Err(NameError::Unknown { name: "missing".to_string() }));
    assert_eq!(ctx.resolve("shared"), Err(NameError::Ambiguous { name: "shared".to_string() }));
    assert_eq!(ctx.resolve("m2::shared").unwrap().owning_module, Some(nm_id("m2")));
    assert_eq!(ctx.resolve("m3::shared"), Err(NameError::Unknown { name: "m3::shared".to_string() }));
    assert_eq!(ctx.resolve("m1::missing"), Err(NameError::Unknown { name: "m1::missing".to_string() }));
    assert_eq!(ctx.resolve("single").unwrap().owning_module, Some(nm_id("m1")));
    assert_eq!(ctx.resolve(""), Err(NameError::Unknown { name: "".to_string() }));
    assert_eq!(ctx.resolve("::"), Err(NameError::Unknown { name: "::".to_string() }));
    assert_eq!(ctx.resolve("a::b::c"), Err(NameError::Unknown { name: "a::b::c".to_string() }));
}

#[test]
fn the_compiled_schema_wins_over_imported_modules() {
    let mut ctx = NamingContext::new();
    ctx.register(Some(nm_id("m1")), nm_id("shared")).unwrap();
    ctx.register(Some(nm_id("m2")), nm_id("shared")).unwrap();
    ctx.register(None, nm_id("shared")).unwrap();
    let found = ctx.resolve("shared").unwrap();
    assert!(found.owning_module.is_none());
    assert_eq!(ctx.resolve_id("shared"), Ok(2));
    assert_eq!(ctx.resolve_id("m1::shared"), Ok(0));
}

#[test]
fn the_table_lists_types_first_and_then_enumerations() {
    let mut inner = TypeSpec::new(nm_id("inner"));
    inner.enums = vec![nm_enum("color")];
    let mut top = TypeSpec::new(nm_id("top"));
    top.enums = vec![nm_enum("shape")];
    top.nested_types = vec![inner];
    let mut lib = TypeSpec::new(nm_id("lib"));
    lib.nested_types = vec![TypeSpec::new(nm_id("inner"))];
    let set = SchemaSet { root: nm_schema(top), imports: vec![nm_schema(lib)] };
    let decls = set.flatten();
    assert_eq!(decls.len(), 4);
    assert!(decls[0].module.is_none());
    assert_eq!(decls[2].module, Some(&nm_id("lib")));
    let ctx = NamingContext::build(&decls).unwrap();
    let listed: Vec<String> = (0..ctx.len()).map(|i| ctx.symbol(i).canonical_name.clone()).collect();
    assert_eq!(listed, vec!["Top", "Inner", "Lib", "Inner", "Shape", "Color"]);
    assert_eq!(ctx.resolve_id("inner"), Ok(1));
    assert_eq!(ctx.resolve_id("lib::inner"), Ok(3));
    assert_eq!(ctx.resolve_id("lib::lib"), Ok(2));
    assert_eq!(ctx.resolve_id("lib"), Ok(2));
}

#[test]
fn every_duplicate_is_reported() {
    let mut top = TypeSpec::new(nm_id("top"));
    top.nested_types = vec![
        TypeSpec::new(nm_id("part")),
        TypeSpec::new(nm_id("part")),
        TypeSpec::new(nm_id("other")),
    ];
    top.enums = vec![nm_enum("other"), nm_enum("fresh")];
    let set = SchemaSet { root: nm_schema(top), imports: vec![] };
    match compile(&set) {
        Err(CompileError::Names(errors)) => {
            assert_eq!(errors.len(), 2);
            match &errors[0] {
                NameError::Duplicate { existing, rejected } => {
                    assert_eq!(existing.canonical_name, "Part");
                    assert_eq!(rejected.as_str(), "part");
                },
                other => panic!("{:?}", other),
            }
            match &errors[1] {
                NameError::Duplicate { existing, rejected } => {
                    assert_eq!(existing.canonical_name, "Other");
                    assert_eq!(rejected.as_str(), "other");
                },
                other => panic!("{:?}", other),
            }
        },
        other => panic!("expected duplicate names, got {:?}", other),
    }
}

#[test]
fn references_that_do_not_resolve_are_reported_with_their_field() {
    let mut top = TypeSpec::new(nm_id("top"));
    let mut wrong_enum = FieldSpec::new(nm_id("kind"));
    wrong_enum.enum_ref = Some(nm_id("part"));
    let mut good_enum = FieldSpec::new(nm_id("tone"));
    good_enum.enum_ref = Some(nm_id("color"));
    top.fields = vec![nm_typed("a", "part"), nm_typed("b", "nowhere"), nm_typed("c", "color"), wrong_enum, good_enum];
    top.params = vec![ParamSpec { id: nm_id("p"), type_ref: Some(TypeRef::Named("gone".to_string())), doc: None }];
    top.nested_types = vec![TypeSpec::new(nm_id("part"))];
    top.enums = vec![nm_enum("color")];
    let set = SchemaSet { root: nm_schema(top), imports: vec![] };
    let decls = set.flatten();
    let ctx = NamingContext::build(&decls).unwrap();
    let errors = check_references(&ctx, &decls);
    let seen: Vec<(usize, Site, usize, &str)> =
        errors.iter().map(|e| (e.in_type, e.site, e.index, e.field.as_str())).collect();
    assert_eq!(
        seen,
        vec![
            (0, Site::FieldType, 1, "b"),
            (0, Site::FieldType, 2, "c"),
            (0, Site::ParamType, 0, "p"),
            (0, Site::FieldEnum, 3, "kind"),
        ]
    );
    assert_eq!(errors[0].error, NameError::Unknown { name: "nowhere".to_string() });
    assert_eq!(errors[1].error, NameError::Unknown { name: "color".to_string() });
    match compile(&set) {
        Err(CompileError::References(found)) => assert_eq!(found, errors),
        other => panic!("expected reference errors, got {:?}", other),
    }
}

#[test]
fn an_ambiguous_type_reference_is_an_error() {
    let mut top = TypeSpec::new(nm_id("top"));
    top.fields = vec![nm_typed("a", "part"), nm_typed("b", "m1::part")];
    let mut m1 = TypeSpec::new(nm_id("m1"));
    m1.nested_types = vec![TypeSpec::new(nm_id("part"))];
    let mut m2 = TypeSpec::new(nm_id("m2"));
    m2.nested_types = vec![TypeSpec::new(nm_id("part"))];
    let set = SchemaSet { root: nm_schema(top), imports: vec![nm_schema(m1), nm_schema(m2)] };
    match compile(&set) {
        Err(CompileError::References(errors)) => {
            assert_eq!(errors.len(), 1);
            assert_eq!(errors[0].error, NameError::Ambiguous { name: "part".to_string() });
            assert_eq!(errors[0].field.as_str(), "a");
        },
        other => panic!("expected an ambiguous reference, got {:?}", other),
    }
}

#[test]
fn dependencies_keep_the_strongest_reason() {
    let mut top = TypeSpec::new(nm_id("top"));
    let mut toned = nm_typed("c", "part");
    toned.enum_ref = Some(nm_id("color"));
    top.fields = vec![nm_typed("a", "other"), toned];
    top.params = vec![
        ParamSpec { id: nm_id("p"), type_ref: Some(TypeRef::Named("part".to_string())), doc: None },
        ParamSpec { id: nm_id("q"), type_ref: Some(TypeRef::Named("third".to_string())), doc: None },
        ParamSpec { id: nm_id("r"), type_ref: Some(TypeRef::Named("top".to_string())), doc: None },
    ];
    top.nested_types =
        vec![TypeSpec::new(nm_id("part")), TypeSpec::new(nm_id("other")), TypeSpec::new(nm_id("third"))];
    top.enums = vec![nm_enum("color")];
    let c = compile(&SchemaSet { root: nm_schema(top), imports: vec![] }).unwrap();
    assert_eq!(
        c.graph.nodes[0].depends_on,
        vec![
            Dependency { on: 2, kind: DependencyKind::Sequencing },
            Dependency { on: 1, kind: DependencyKind::Sequencing },
            Dependency { on: 3, kind: DependencyKind::Parameter },
            Dependency { on: 4, kind: DependencyKind::EnumReference },
        ]
    );
    assert!(c.graph.nodes[3].parents.is_empty());
    assert_eq!(c.names.symbol(4).canonical_name, "Color");
}
