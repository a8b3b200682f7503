//! The schema as declared: types, their fields and the names they refer to,
//! still symbolic.

use vstd::prelude::*;
use crate::ident::Identifier;

verus! {

/// Byte order declared for a whole schema.
#[derive(Debug, Clone, Copy, PartialEq, Eq)]
pub enum Endian {
    Le,
    Be,
}

/// Byte order of one primitive type reference.
#[derive(Debug, Clone, Copy, PartialEq, Eq)]
pub enum EndianSpec {
    Implicit,
    Little,
    Big,
}

/// An integer type by its width.
#[derive(Debug, Clone, Copy, PartialEq, Eq)]
pub enum IntTypeRef {
    Int8,
    Int16(EndianSpec),
    Int32(EndianSpec),
    Int64(EndianSpec),
}

/// A floating-point type by its width.
#[derive(Debug, Clone, Copy, PartialEq, Eq)]
pub enum FloatTypeRef {
    Float32(EndianSpec),
    Float64(EndianSpec),
}

/// A type that every schema knows without declaring it.
#[derive(Debug, Clone, Copy, PartialEq, Eq)]
pub enum WellKnownTypeRef {
    Unsigned(IntTypeRef),
    Signed(IntTypeRef),
    Float(FloatTypeRef),
    Str,
    StrZ,
}

/// The type of a field: well known, or declared and referred to by name.
#[derive(Debug, Clone, PartialEq, Eq)]
pub enum TypeRef {
    WellKnown(WellKnownTypeRef),
    Named(String),
}

/// A literal value.
#[derive(Debug, Clone, PartialEq, Eq)]
pub enum AnyScalar {
    Null,
    Bool(bool),
    Int(i64),
    UInt(u64),
    Text(String),
}

/// One line of text or several.
#[derive(Debug, Clone, PartialEq, Eq)]
pub enum StringOrArray {
    String(String),
    Array(Vec<String>),
}

impl StringOrArray {
    /// The lines, in order.
    pub open spec fn lines(&self) -> Seq<String> {
        match self {
            StringOrArray::String(s) => seq![*s],
            StringOrArray::Array(v) => v@,
        }
    }

    pub fn len(&self) -> (n: usize)
        ensures
            n == self.lines().len(),
    {
        match self {
            StringOrArray::String(_) => 1,
            StringOrArray::Array(v) => v.len(),
        }
    }

    pub fn line(&self, i: usize) -> (s: &String)
        requires
            i < self.lines().len(),
        ensures
            *s == self.lines()[i as int],
    {
        match self {
            StringOrArray::String(s) => s,
            StringOrArray::Array(v) => &v[i],
        }
    }
}

/// An expression of the schema language, as written.
#[derive(Debug, Clone, PartialEq, Eq)]
pub struct Expr {
    pub text: String,
}

/// How often a field is read.
#[derive(Debug, Clone, PartialEq, Eq)]
pub enum RepeatSpec {
    /// As many times as the expression says, which may be zero.
    Count(Expr),
    /// Until the stream ends, which may be at once.
    Eos,
    /// Until the predicate holds of the element read last; at least once.
    Until(Expr),
}

/// One declared attribute of a type.
#[derive(Debug, Clone, PartialEq, Eq)]
pub struct FieldSpec {
    pub id: Identifier,
    pub type_ref: Option<TypeRef>,
    pub if_cond: Option<Expr>,
    pub repeat: Option<RepeatSpec>,
    pub size: Option<Expr>,
    pub encoding: Option<String>,
    pub enum_ref: Option<Identifier>,
    pub contents: Option<Vec<u8>>,
    pub doc: Option<String>,
    pub doc_ref: Option<StringOrArray>,
}

impl FieldSpec {
    /// A field with nothing declared but its name.
    pub fn new(id: Identifier) -> (f: FieldSpec)
        ensures
            f == (FieldSpec {
                id,
                type_ref: None,
                if_cond: None,
                repeat: None,
                size: None,
                encoding: None,
                enum_ref: None,
                contents: None,
                doc: None,
                doc_ref: None,
            }),
    {
        FieldSpec {
            id,
            type_ref: None,
            if_cond: None,
            repeat: None,
            size: None,
            encoding: None,
            enum_ref: None,
            contents: None,
            doc: None,
            doc_ref: None,
        }
    }

    /// Whether an instance of the containing type may hold no value of this
    /// field: it is guarded by a condition, or repeated a number of times that
    /// may be zero.
    pub open spec fn may_be_absent(&self) -> bool {
        ||| self.if_cond is Some
        ||| self.repeat matches Some(RepeatSpec::Count(_))
        ||| self.repeat == Some(RepeatSpec::Eos)
    }

    pub fn is_optional(&self) -> (b: bool)
        ensures
            b == self.may_be_absent(),
    {
        if self.if_cond.is_some() {
            return true;
        }
        match &self.repeat {
            Some(RepeatSpec::Count(_)) => true,
            Some(RepeatSpec::Eos) => true,
            _ => false,
        }
    }

    /// The name of the declared type that the field is an instance of.
    pub open spec fn named_type(&self) -> Option<Seq<char>> {
        match self.type_ref {
            Some(TypeRef::Named(n)) => Some(n@),
            _ => None,
        }
    }
}

/// A parameter of a parametrized type.
#[derive(Debug, Clone, PartialEq, Eq)]
pub struct ParamSpec {
    pub id: Identifier,
    pub type_ref: Option<TypeRef>,
    pub doc: Option<String>,
}

impl ParamSpec {
    /// The name of the declared type that the parameter is an instance of.
    pub open spec fn named_type(&self) -> Option<Seq<char>> {
        match self.type_ref {
            Some(TypeRef::Named(n)) => Some(n@),
            _ => None,
        }
    }
}

/// One value of an enumeration.
#[derive(Debug, Clone, PartialEq, Eq)]
pub struct EnumValueSpec {
    pub id: Identifier,
    pub value: i64,
    pub doc: Option<String>,
}

/// A declared enumeration.
#[derive(Debug, Clone, PartialEq, Eq)]
pub struct EnumSpec {
    pub name: Identifier,
    pub values: Vec<EnumValueSpec>,
}

/// A declared type. It is declared once and may be used as the type of
/// fields of many types.
#[derive(Debug, PartialEq, Eq)]
pub struct TypeSpec {
    pub name: Identifier,
    /// The fields, read one after the other.
    pub fields: Vec<FieldSpec>,
    /// The values computed on demand.
    pub instances: Vec<FieldSpec>,
    pub nested_types: Vec<TypeSpec>,
    pub enums: Vec<EnumSpec>,
    pub params: Vec<ParamSpec>,
    pub doc: Option<String>,
    pub doc_ref: Option<StringOrArray>,
}

impl TypeSpec {
    /// A type with nothing declared but its name.
    pub fn new(name: Identifier) -> (t: TypeSpec)
        ensures
            t.name == name,
            t.fields@.len() == 0,
            t.instances@.len() == 0,
            t.nested_types@.len() == 0,
            t.enums@.len() == 0,
            t.params@.len() == 0,
            t.doc is None,
            t.doc_ref is None,
    {
        TypeSpec {
            name,
            fields: Vec::new(),
            instances: Vec::new(),
            nested_types: Vec::new(),
            enums: Vec::new(),
            params: Vec::new(),
            doc: None,
            doc_ref: None,
        }
    }

    /// Fields and instances in one list: the fields first.
    pub open spec fn members(&self) -> Seq<FieldSpec> {
        self.fields@ + self.instances@
    }

    /// Whether member `k` is an instance.
    pub open spec fn computed(&self, k: int) -> bool {
        k >= self.fields@.len()
    }

    /// Whether a value of the type may lack member `k`: an instance is only
    /// there once asked for, a field may be absent by its own declaration.
    pub open spec fn optional(&self, k: int) -> bool {
        self.computed(k) || self.members()[k].may_be_absent()
    }

    pub fn member_count(&self) -> (n: usize)
        requires
            self.fields@.len() + self.instances@.len() <= usize::MAX,
        ensures
            n == self.members().len(),
    {
        self.fields.len() + self.instances.len()
    }

    pub fn member(&self, k: usize) -> (f: &FieldSpec)
        requires
            k < self.members().len(),
        ensures
            *f == self.members()[k as int],
    {
        if k < self.fields.len() {
            &self.fields[k]
        } else {
            &self.instances[k - self.fields.len()]
        }
    }

    pub fn is_optional(&self, k: usize) -> (b: bool)
        requires
            k < self.members().len(),
        ensures
            b == self.optional(k as int),
    {
        k >= self.fields.len() || self.fields[k].is_optional()
    }

    /// The type and every type nested in it at any depth, each before the
    /// types nested in it.
    pub open spec fn with_nested(&self) -> Seq<TypeSpec>
        decreases self, 1nat, 0nat,
    {
        seq![*self] + self.nested_from(0)
    }

    /// The nested types from `i` on, each with what is nested in it.
    pub open spec fn nested_from(&self, i: nat) -> Seq<TypeSpec>
        decreases self, 0nat, self.nested_types.len() - i,
    {
        if i >= self.nested_types.len() {
            Seq::empty()
        } else {
            self.nested_types[i as int].with_nested() + self.nested_from(i + 1)
        }
    }
}

/// What a schema says of itself.
#[derive(Debug, Clone, PartialEq, Eq)]
pub struct MetaSpec {
    pub endian: Option<Endian>,
    pub imports: Vec<String>,
    pub file_extension: Option<String>,
}

/// One schema module. Its top-level type carries the schema's id as its name.
#[derive(Debug, PartialEq, Eq)]
pub struct Schema {
    pub meta: MetaSpec,
    pub root: TypeSpec,
}

/// What one compilation reads: the schema to compile and the modules it
/// imports.
#[derive(Debug, PartialEq, Eq)]
pub struct SchemaSet {
    pub root: Schema,
    pub imports: Vec<Schema>,
}

/// A declared type together with the module that declares it; `None` is the
/// schema that is compiled.
#[derive(Debug, Clone, Copy)]
pub struct Declared<'a> {
    pub module: Option<&'a Identifier>,
    pub spec: &'a TypeSpec,
}

/// Whether the members of each type can be counted in a machine word.
pub open spec fn countable(decls: Seq<Declared>) -> bool {
    forall|x: int|
        0 <= x < decls.len() ==> (#[trigger] decls[x]).spec.fields@.len() + decls[x].spec.instances@.len()
            <= usize::MAX
}

/// Whether the members of each type can be counted in a machine word.
pub fn check_countable(decls: &Vec<Declared>) -> (b: bool)
    ensures
        b == countable(decls@),
{
    let mut x: usize = 0;
    while x < decls.len()
        invariant
            x <= decls@.len(),
            forall|y: int|
                0 <= y < x ==> (#[trigger] decls@[y]).spec.fields@.len() + decls@[y].spec.instances@.len()
                    <= usize::MAX,
        decreases decls.len() - x,
    {
        let fields = decls[x].spec.fields.len();
        let instances = decls[x].spec.instances.len();
        if instances > usize::MAX - fields {
            return false;
        }
        x += 1;
    }
    true
}

/// The types `types`, each as declared by `module`.
pub open spec fn tagged<'a>(module: Option<&'a Identifier>, types: Seq<TypeSpec>) -> Seq<Declared<'a>> {
    Seq::new(types.len(), |i: int| Declared { module, spec: &types[i] })
}

/// The types of one module in the order of `with_nested`.
pub open spec fn declared_in<'a>(module: Option<&'a Identifier>, t: &'a TypeSpec) -> Seq<Declared<'a>> {
    tagged(module, t.with_nested())
}

/// Adds `t` and the types nested in it to `out`.
pub fn collect_declared<'a>(
    module: Option<&'a Identifier>,
    t: &'a TypeSpec,
    out: &mut Vec<Declared<'a>>,
)
    ensures
        final(out)@ == old(out)@ + declared_in(module, t),
    decreases t,
{
    let ghost before = out@;
    let ghost mut done: Seq<TypeSpec> = seq![*t];
    out.push(Declared { module, spec: t });
    assert(out@ =~= before + tagged(module, done));
    let mut i: usize = 0;
    while i < t.nested_types.len()
        invariant
            i <= t.nested_types.len(),
            out@ == before + tagged(module, done),
            done + t.nested_from(i as nat) == t.with_nested(),
        decreases t.nested_types.len() - i,
    {
        let ghost prev = out@;
        let ghost inner = t.nested_types[i as int].with_nested();
        collect_declared(module, &t.nested_types[i], out);
        proof {
            assert(t.nested_from(i as nat) == inner + t.nested_from((i + 1) as nat));
            assert((done + inner) + t.nested_from((i + 1) as nat) =~= done + t.nested_from(i as nat));
            assert(out@ =~= before + tagged(module, done + inner));
            done = done + inner;
        }
        i += 1;
    }
    assert(done =~= t.with_nested());
}

impl SchemaSet {
    /// Every declared type: those of the compiled schema first, its top-level
    /// type at their head, then those of each imported module.
    pub open spec fn declared(&self) -> Seq<Declared> {
        declared_in(None, &self.root.root) + self.imported_from(0)
    }

    /// The types of the imported modules from module `i` on.
    pub open spec fn imported_from(&self, i: nat) -> Seq<Declared>
        decreases self.imports.len() - i,
    {
        if i >= self.imports.len() {
            Seq::empty()
        } else {
            declared_in(Some(&self.imports[i as int].root.name), &self.imports[i as int].root)
                + self.imported_from(i + 1)
        }
    }

    /// The declared types as a flat list.
    pub fn flatten(&self) -> (out: Vec<Declared>)
        ensures
            out@ == self.declared(),
            out@.len() > 0,
            out@[0] == (Declared { module: None, spec: &self.root.root }),
    {
        let mut out: Vec<Declared> = Vec::new();
        collect_declared(None, &self.root.root, &mut out);
        let ghost head = out@;
        assert(out@[0] == (Declared { module: None, spec: &self.root.root }));
        let mut i: usize = 0;
        while i < self.imports.len()
            invariant
                i <= self.imports.len(),
                out@.len() >= head.len(),
                out@.take(head.len() as int) == head,
                out@ + self.imported_from(i as nat) == self.declared(),
            decreases self.imports.len() - i,
        {
            let ghost prev = out@;
            let ghost module = &self.imports[i as int];
            let ghost inner = declared_in(Some(&module.root.name), &module.root);
            collect_declared(Some(&self.imports[i].root.name), &self.imports[i].root, &mut out);
            proof {
                assert(self.imported_from(i as nat) == inner + self.imported_from((i + 1) as nat));
                let rest = self.imported_from((i + 1) as nat);
                assert((prev + inner) + rest =~= prev + self.imported_from(i as nat));
                assert(out@.take(head.len() as int) =~= prev.take(head.len() as int));
            }
            i += 1;
        }
        assert(out@ =~= self.declared());
        assert(out@[0] == out@.take(head.len() as int)[0]);
        out
    }
}

} // verus!
