//! The naming context: the table of every declared type and enumeration
//! name, filled once and then only read.

use vstd::prelude::*;
use crate::ident::{emitted, is_name, is_name_char, Identifier};
use crate::schema::Declared;
use crate::text::{string_of, to_chars};

verus! {

/// What a resolved name stands for, as plain values.
pub struct SymbolView {
    /// The module that declares the name; `None` is the compiled schema.
    pub module: Option<Seq<char>>,
    pub identifier: Seq<char>,
    pub canonical: Seq<char>,
}

/// The symbol that the declaration of `identifier` in `module` makes.
pub open spec fn symbol_for(module: Option<Seq<char>>, identifier: Seq<char>) -> SymbolView {
    SymbolView { module, identifier, canonical: emitted(identifier) }
}

/// The spelling of an optional module name.
pub open spec fn module_view(module: Option<Identifier>) -> Option<Seq<char>> {
    match module {
        Some(m) => Some(m@),
        None => None,
    }
}

/// The spelling of the module of a declared type.
pub open spec fn module_of(d: Declared) -> Option<Seq<char>> {
    match d.module {
        Some(m) => Some(m@),
        None => None,
    }
}

/// The resolved identity of a declared name.
#[derive(Debug, PartialEq, Eq)]
pub struct NamedSymbol {
    pub identifier: Identifier,
    pub owning_module: Option<Identifier>,
    pub canonical_name: String,
}

impl View for NamedSymbol {
    type V = SymbolView;

    open spec fn view(&self) -> SymbolView {
        SymbolView {
            module: module_view(self.owning_module),
            identifier: self.identifier@,
            canonical: self.canonical_name@,
        }
    }
}

impl Clone for NamedSymbol {
    fn clone(&self) -> (r: Self)
        ensures
            r@ == self@,
    {
        NamedSymbol {
            identifier: self.identifier.clone(),
            owning_module: clone_module(&self.owning_module),
            canonical_name: self.canonical_name.clone(),
        }
    }
}

/// A copy of an optional module name.
pub fn clone_module(module: &Option<Identifier>) -> (r: Option<Identifier>)
    ensures
        module_view(r) == module_view(*module),
{
    match module {
        Some(m) => Some(m.clone()),
        None => None,
    }
}

/// Whether two optional module names are spelled alike.
pub fn same_module(a: &Option<Identifier>, b: &Option<Identifier>) -> (r: bool)
    ensures
        r == (module_view(*a) == module_view(*b)),
{
    match (a, b) {
        (Some(x), Some(y)) => x.same(y),
        (None, None) => true,
        _ => false,
    }
}

/// Why a name could not be registered or resolved, as plain values.
pub enum NameErrorView {
    Duplicate { existing: SymbolView, rejected: Seq<char> },
    Unknown { name: Seq<char> },
    Ambiguous { name: Seq<char> },
}

/// Why a name could not be registered or resolved.
#[derive(Debug, PartialEq, Eq)]
pub enum NameError {
    /// A second declaration claims the canonical name of `existing` in the
    /// module of `existing`.
    Duplicate { existing: NamedSymbol, rejected: Identifier },
    /// No module declares the name.
    Unknown { name: String },
    /// Several imported modules declare the name, and it came without a
    /// module in front.
    Ambiguous { name: String },
}

impl View for NameError {
    type V = NameErrorView;

    open spec fn view(&self) -> NameErrorView {
        match self {
            NameError::Duplicate { existing, rejected } => NameErrorView::Duplicate {
                existing: existing@,
                rejected: rejected@,
            },
            NameError::Unknown { name } => NameErrorView::Unknown { name: name@ },
            NameError::Ambiguous { name } => NameErrorView::Ambiguous { name: name@ },
        }
    }
}

/// The errors of a list, as plain values.
pub open spec fn error_views(errors: Seq<NameError>) -> Seq<NameErrorView> {
    Seq::new(errors.len(), |i: int| errors[i]@)
}

/// Whether entry `i` of `table` holds `canonical` in `module`.
pub open spec fn claimed_at(
    table: Seq<SymbolView>,
    i: int,
    module: Option<Seq<char>>,
    canonical: Seq<char>,
) -> bool {
    0 <= i < table.len() && table[i].module == module && table[i].canonical == canonical
}

/// Whether some entry of `table` holds `canonical` in `module`.
pub open spec fn claimed(
    table: Seq<SymbolView>,
    module: Option<Seq<char>>,
    canonical: Seq<char>,
) -> bool {
    exists|i: int| claimed_at(table, i, module, canonical)
}

/// What registering `identifier` in `module` comes to on `table`: the new
/// symbol, or the entry that already holds its canonical name.
pub open spec fn register_outcome(
    table: Seq<SymbolView>,
    module: Option<Seq<char>>,
    identifier: Seq<char>,
) -> Result<SymbolView, NameErrorView> {
    if claimed(table, module, emitted(identifier)) {
        let i = choose|i: int| claimed_at(table, i, module, emitted(identifier));
        Err(NameErrorView::Duplicate { existing: table[i], rejected: identifier })
    } else {
        Ok(symbol_for(module, identifier))
    }
}

/// Table and errors after registering `entries` one after the other.
pub open spec fn register_all(entries: Seq<(Option<Seq<char>>, Seq<char>)>) -> (
    Seq<SymbolView>,
    Seq<NameErrorView>,
)
    decreases entries.len(),
{
    if entries.len() == 0 {
        (Seq::empty(), Seq::empty())
    } else {
        let (table, errors) = register_all(entries.drop_last());
        let e = entries.last();
        match register_outcome(table, e.0, e.1) {
            Ok(s) => (table.push(s), errors),
            Err(err) => (table, errors.push(err)),
        }
    }
}

/// The names of the declared types, one per type and in their order.
pub open spec fn type_entries(decls: Seq<Declared>) -> Seq<(Option<Seq<char>>, Seq<char>)> {
    Seq::new(decls.len(), |i: int| (module_of(decls[i]), decls[i].spec.name@))
}

/// The names of the enumerations that type `d` declares.
pub open spec fn enums_of(d: Declared) -> Seq<(Option<Seq<char>>, Seq<char>)> {
    Seq::new(d.spec.enums@.len(), |k: int| (module_of(d), d.spec.enums@[k].name@))
}

/// The names of the enumerations that the first `n` types declare.
pub open spec fn enum_entries(decls: Seq<Declared>, n: nat) -> Seq<(Option<Seq<char>>, Seq<char>)>
    decreases n,
{
    if n == 0 {
        Seq::empty()
    } else {
        enum_entries(decls, (n - 1) as nat) + enums_of(decls[n - 1])
    }
}

/// Every name that the declared types bring: the types first, then the
/// enumerations.
pub open spec fn entries(decls: Seq<Declared>) -> Seq<(Option<Seq<char>>, Seq<char>)> {
    type_entries(decls) + enum_entries(decls, decls.len())
}

/// Whether the table lists the declared types first and in their order, so
/// that the index of a type in `decls` is the index of its symbol.
pub open spec fn lists_types(table: Seq<SymbolView>, decls: Seq<Declared>) -> bool {
    &&& decls.len() <= table.len()
    &&& forall|j: int|
        0 <= j < decls.len() ==> #[trigger] table[j] == symbol_for(module_of(decls[j]), decls[j].spec.name@)
}

/// Where the first `::` of `name` stands.
pub open spec fn separator_at(name: Seq<char>, p: int) -> bool {
    0 <= p && p + 1 < name.len() && name[p] == ':' && name[p + 1] == ':'
}

/// Whether `name` comes with a module in front.
pub open spec fn is_qualified(name: Seq<char>) -> bool {
    exists|p: int| separator_at(name, p)
}

/// Whether `p` is the place of the first `::` of `name`.
pub open spec fn first_separator(name: Seq<char>, p: int) -> bool {
    separator_at(name, p) && forall|q: int| 0 <= q < p ==> !separator_at(name, q)
}

/// Whether entry `i` of `table` is `identifier` as declared by `module`.
pub open spec fn declared_at(
    table: Seq<SymbolView>,
    i: int,
    module: Option<Seq<char>>,
    identifier: Seq<char>,
) -> bool {
    0 <= i < table.len() && table[i].module == module && table[i].identifier == identifier
}

/// Whether entry `i` of `table` is `identifier` as declared by an imported
/// module.
pub open spec fn imported_at(table: Seq<SymbolView>, i: int, identifier: Seq<char>) -> bool {
    0 <= i < table.len() && table[i].module is Some && table[i].identifier == identifier
}

/// What looking a name up comes to.
pub enum Lookup {
    /// The entry of the table at this index.
    Found(int),
    Unknown,
    Ambiguous,
}

/// What `name` resolves to in `table`. A name with a module in front,
/// `module::name`, is looked for in that module alone. Any other name is the
/// compiled schema's own declaration if there is one; else the declaration of
/// the one imported module that has it; with several such modules it is
/// ambiguous.
pub open spec fn lookup(table: Seq<SymbolView>, name: Seq<char>) -> Lookup {
    if is_qualified(name) {
        let p = choose|p: int| first_separator(name, p);
        let module = Some(name.subrange(0, p));
        let identifier = name.subrange(p + 2, name.len() as int);
        if exists|i: int| declared_at(table, i, module, identifier) {
            Lookup::Found(choose|i: int| declared_at(table, i, module, identifier))
        } else {
            Lookup::Unknown
        }
    } else if exists|i: int| declared_at(table, i, None, name) {
        Lookup::Found(choose|i: int| declared_at(table, i, None, name))
    } else if !(exists|i: int| imported_at(table, i, name)) {
        Lookup::Unknown
    } else if exists|i: int, j: int| i != j && imported_at(table, i, name) && imported_at(table, j, name) {
        Lookup::Ambiguous
    } else {
        Lookup::Found(choose|i: int| imported_at(table, i, name))
    }
}

/// The consistency of a table: every entry is spelled by the rules and emitted
/// under the canonical name of its identifier, and no two entries of one
/// module share a canonical name.
pub open spec fn consistent(table: Seq<SymbolView>) -> bool {
    &&& forall|i: int|
        0 <= i < table.len() ==> {
            &&& is_name((#[trigger] table[i]).identifier)
            &&& table[i].canonical == emitted(table[i].identifier)
            &&& (table[i].module matches Some(m) ==> is_name(m))
        }
    &&& forall|i: int, j: int|
        0 <= i < table.len() && 0 <= j < table.len() && i != j ==> !(
            (#[trigger] table[i]).module == (#[trigger] table[j]).module
            && table[i].canonical == table[j].canonical)
}

/// The table of declared names.
#[derive(Debug)]
pub struct NamingContext {
    symbols: Vec<NamedSymbol>,
}

impl View for NamingContext {
    type V = Seq<SymbolView>;

    closed spec fn view(&self) -> Seq<SymbolView> {
        Seq::new(self.symbols@.len(), |i: int| self.symbols@[i]@)
    }
}

impl NamingContext {
    /// Whether the table is consistent. Every table that this type's
    /// functions hand out is.
    pub open spec fn well_formed(&self) -> bool {
        consistent(self@)
    }

    /// An empty table.
    pub fn new() -> (ctx: NamingContext)
        ensures
            ctx@ == Seq::<SymbolView>::empty(),
            ctx.well_formed(),
    {
        let ctx = NamingContext { symbols: Vec::new() };
        assert(ctx@ =~= Seq::<SymbolView>::empty());
        ctx
    }

    /// The number of registered names.
    pub fn len(&self) -> (n: usize)
        ensures
            n == self@.len(),
    {
        self.symbols.len()
    }

    /// The symbol at index `id` of the table.
    pub fn symbol(&self, id: usize) -> (sym: &NamedSymbol)
        requires
            id < self@.len(),
        ensures
            sym@ == self@[id as int],
    {
        &self.symbols[id]
    }

    /// The symbols at the indices `ids`, in their order.
    pub fn symbols_of(&self, ids: &Vec<usize>) -> (out: Vec<NamedSymbol>)
        requires
            forall|i: int| 0 <= i < ids@.len() ==> ids@[i] < self@.len(),
        ensures
            out@.len() == ids@.len(),
            forall|i: int| 0 <= i < ids@.len() ==> (#[trigger] out@[i])@ == self@[ids@[i] as int],
    {
        let mut out: Vec<NamedSymbol> = Vec::new();
        let mut i: usize = 0;
        while i < ids.len()
            invariant
                i <= ids@.len(),
                out@.len() == i,
                forall|j: int| 0 <= j < ids@.len() ==> ids@[j] < self@.len(),
                forall|j: int| 0 <= j < i ==> (#[trigger] out@[j])@ == self@[ids@[j] as int],
            decreases ids.len() - i,
        {
            out.push(self.symbol(ids[i]).clone());
            i += 1;
        }
        out
    }

    /// The index of the entry that holds `canonical` in `module`, if there is
    /// one.
    fn claimant(&self, module: &Option<Identifier>, canonical: &String) -> (r: Option<usize>)
        ensures
            match r {
                Some(i) => claimed_at(self@, i as int, module_view(*module), canonical@),
                None => !claimed(self@, module_view(*module), canonical@),
            },
    {
        let mut i: usize = 0;
        while i < self.symbols.len()
            invariant
                i <= self.symbols.len(),
                forall|j: int| 0 <= j < i ==> !claimed_at(self@, j, module_view(*module), canonical@),
            decreases self.symbols.len() - i,
        {
            let s = &self.symbols[i];
            assert(self@[i as int] == s@);
            if same_module(&s.owning_module, module) && s.canonical_name == *canonical {
                return Some(i);
            }
            i += 1;
        }
        None
    }

    /// Registers the declaration of `identifier` in `module` and returns its
    /// symbol. Where an entry of the table already holds the canonical name in
    /// that module, the table stays as it is and the error names that entry.
    pub fn register(&mut self, module: Option<Identifier>, identifier: Identifier) -> (r: Result<
        NamedSymbol,
        NameError,
    >)
        requires
            old(self).well_formed(),
        ensures
            final(self).well_formed(),
            match register_outcome(old(self)@, module_view(module), identifier@) {
                Ok(s) => r matches Ok(sym) && sym@ == s && final(self)@ == old(self)@.push(s),
                Err(e) => r matches Err(err) && err@ == e && final(self)@ == old(self)@,
            },
    {
        let ghost table = self@;
        let ghost m = module_view(module);
        let canonical = identifier.emitted_name();
        proof {
            use_type_invariant(&identifier);
            match &module {
                Some(name) => {
                    use_type_invariant(name);
                },
                None => {},
            }
        }
        match self.claimant(&module, &canonical) {
            Some(i) => {
                let ghost chosen = choose|j: int| claimed_at(table, j, m, emitted(identifier@));
                assert(chosen == i);
                let existing = self.symbols[i].clone();
                Err(NameError::Duplicate { existing, rejected: identifier })
            },
            None => {
                let sym = NamedSymbol { identifier, owning_module: module, canonical_name: canonical };
                let copy = sym.clone();
                self.symbols.push(sym);
                proof {
                    let s = copy@;
                    assert(self@ =~= table.push(s));
                    assert(s == symbol_for(m, identifier@));
                    assert forall|i: int, j: int|
                        0 <= i < self@.len() && 0 <= j < self@.len() && i != j implies !(
                        (#[trigger] self@[i]).module == (#[trigger] self@[j]).module
                            && self@[i].canonical == self@[j].canonical) by {
                        if i < table.len() && j < table.len() {
                            assert(self@[i] == table[i] && self@[j] == table[j]);
                        } else if i < table.len() {
                            assert(!claimed_at(table, i, m, canonical@));
                        } else {
                            assert(!claimed_at(table, j, m, canonical@));
                        }
                    }
                    assert forall|i: int| 0 <= i < self@.len() implies {
                        &&& is_name((#[trigger] self@[i]).identifier)
                        &&& self@[i].canonical == emitted(self@[i].identifier)
                        &&& (self@[i].module matches Some(x) ==> is_name(x))
                    } by {
                        if i < table.len() {
                            assert(self@[i] == table[i]);
                        }
                    }
                }
                Ok(copy)
            },
        }
    }

    /// Registers one more name and keeps the error, if there is one.
    fn note(
        &mut self,
        errors: &mut Vec<NameError>,
        module: Option<Identifier>,
        identifier: Identifier,
        Ghost(done): Ghost<Seq<(Option<Seq<char>>, Seq<char>)>>,
    )
        requires
            old(self).well_formed(),
            (old(self)@, error_views(old(errors)@)) == register_all(done),
        ensures
            final(self).well_formed(),
            (final(self)@, error_views(final(errors)@)) == register_all(
                done.push((module_view(module), identifier@)),
            ),
    {
        let ghost before = error_views(errors@);
        let ghost next = done.push((module_view(module), identifier@));
        assert(next.drop_last() =~= done);
        match self.register(module, identifier) {
            Ok(_) => {},
            Err(e) => {
                let ghost ev = e@;
                errors.push(e);
                assert(error_views(errors@) =~= before.push(ev));
            },
        }
    }

    /// The table for the declared types `decls`: every type name is
    /// registered, in the order of `decls`, then the name of every
    /// enumeration, so that the table lists the types first. Where a name is refused, the others are still registered,
    /// and all the errors are returned in place of the table.
    pub fn build(decls: &Vec<Declared>) -> (r: Result<NamingContext, Vec<NameError>>)
        ensures
            match r {
                Ok(ctx) => ctx.well_formed() && lists_types(ctx@, decls@) && register_all(
                    entries(decls@),
                ) == (ctx@, Seq::<NameErrorView>::empty()),
                Err(errors) => errors@.len() > 0 && register_all(entries(decls@)).1 == error_views(
                    errors@,
                ),
            },
    {
        let mut ctx = NamingContext::new();
        let mut errors: Vec<NameError> = Vec::new();
        let ghost mut done: Seq<(Option<Seq<char>>, Seq<char>)> = Seq::empty();
        assert(error_views(errors@) =~= Seq::<NameErrorView>::empty());
        let mut i: usize = 0;
        while i < decls.len()
            invariant
                i <= decls.len(),
                ctx.well_formed(),
                (ctx@, error_views(errors@)) == register_all(done),
                done == type_entries(decls@).take(i as int),
            decreases decls.len() - i,
        {
            let d = &decls[i];
            let module = match d.module {
                Some(m) => Some(m.clone()),
                None => None,
            };
            ctx.note(&mut errors, module, d.spec.name.clone(), Ghost(done));
            proof {
                done = done.push((module_of(*d), d.spec.name@));
                assert(done =~= type_entries(decls@).take(i + 1));
            }
            i += 1;
        }
        assert(done =~= type_entries(decls@) + enum_entries(decls@, 0));
        let mut x: usize = 0;
        while x < decls.len()
            invariant
                x <= decls.len(),
                ctx.well_formed(),
                (ctx@, error_views(errors@)) == register_all(done),
                done == type_entries(decls@) + enum_entries(decls@, x as nat),
            decreases decls.len() - x,
        {
            let d = &decls[x];
            let ghost base = done;
            let mut k: usize = 0;
            while k < d.spec.enums.len()
                invariant
                    k <= d.spec.enums.len(),
                    ctx.well_formed(),
                    (ctx@, error_views(errors@)) == register_all(done),
                    done == base + enums_of(*d).take(k as int),
                decreases d.spec.enums.len() - k,
            {
                let module = match d.module {
                    Some(m) => Some(m.clone()),
                    None => None,
                };
                ctx.note(&mut errors, module, d.spec.enums[k].name.clone(), Ghost(done));
                proof {
                    done = done.push((module_of(*d), d.spec.enums@[k as int].name@));
                    assert(done =~= base + enums_of(*d).take(k + 1));
                }
                k += 1;
            }
            proof {
                assert(enums_of(*d).take(k as int) =~= enums_of(*d));
                assert(done =~= type_entries(decls@) + enum_entries(decls@, (x + 1) as nat));
            }
            x += 1;
        }
        assert(done == entries(decls@));
        if errors.len() == 0 {
            proof {
                assert(error_views(errors@) =~= Seq::<NameErrorView>::empty());
                lemma_register_all_layout(entries(decls@));
                assert forall|j: int| 0 <= j < decls@.len() implies #[trigger] ctx@[j] == symbol_for(
                    module_of(decls@[j]),
                    decls@[j].spec.name@,
                ) by {
                    assert(entries(decls@)[j] == type_entries(decls@)[j]);
                }
            }
            Ok(ctx)
        } else {
            Err(errors)
        }
    }

    /// The index of `identifier` as declared by `module`, if the table has it.
    fn find_declared(&self, module: &Option<String>, identifier: &String) -> (r: Option<usize>)
        ensures
            match r {
                Some(i) => declared_at(self@, i as int, text_view(*module), identifier@),
                None => !exists|i: int| declared_at(self@, i, text_view(*module), identifier@),
            },
    {
        let mut i: usize = 0;
        while i < self.symbols.len()
            invariant
                i <= self.symbols.len(),
                forall|j: int| 0 <= j < i ==> !declared_at(self@, j, text_view(*module), identifier@),
            decreases self.symbols.len() - i,
        {
            let s = &self.symbols[i];
            assert(self@[i as int] == s@);
            let same = match (&s.owning_module, module) {
                (Some(x), Some(y)) => x.spells(y),
                (None, None) => true,
                _ => false,
            };
            if same && s.identifier.spells(identifier) {
                return Some(i);
            }
            i += 1;
        }
        None
    }

    /// The index of the first entry from `from` on that an imported module
    /// declares as `identifier`.
    fn find_imported(&self, identifier: &String, from: usize) -> (r: Option<usize>)
        ensures
            match r {
                Some(i) => from <= i && imported_at(self@, i as int, identifier@) && forall|j: int|
                    from <= j < i ==> !imported_at(self@, j, identifier@),
                None => forall|j: int| from <= j ==> !imported_at(self@, j, identifier@),
            },
    {
        let mut i: usize = from;
        while i < self.symbols.len()
            invariant
                from <= i,
                forall|j: int| from <= j < i ==> !imported_at(self@, j, identifier@),
            decreases self.symbols.len() - i,
        {
            let s = &self.symbols[i];
            assert(self@[i as int] == s@);
            if s.owning_module.is_some() && s.identifier.spells(identifier) {
                return Some(i);
            }
            i += 1;
        }
        None
    }

    /// The index in the table of what `name` resolves to.
    pub fn resolve_id(&self, name: &str) -> (r: Result<usize, NameError>)
        requires
            self.well_formed(),
        ensures
            match lookup(self@, name@) {
                Lookup::Found(i) => r matches Ok(id) && id == i && 0 <= i < self@.len(),
                Lookup::Unknown => r matches Err(e) && e@ == (NameErrorView::Unknown { name: name@ }),
                Lookup::Ambiguous => r matches Err(e) && e@ == (NameErrorView::Ambiguous {
                    name: name@,
                }),
            },
    {
        let chars = to_chars(name);
        let n = chars.len();
        let count = self.symbols.len();
        let mut p: usize = 0;
        let mut found = false;
        while !found && p < n
            invariant
                n == chars@.len(),
                chars@ == name@,
                found ==> separator_at(name@, p as int),
                forall|q: int| 0 <= q < p ==> !separator_at(name@, q),
            decreases n - p + if found { 0int } else { 1int },
        {
            if p + 1 < n && chars[p] == ':' && chars[p + 1] == ':' {
                found = true;
            } else {
                p += 1;
            }
        }
        if found {
            let ghost chosen = choose|q: int| first_separator(name@, q);
            assert(first_separator(name@, p as int));
            assert(chosen == p) by {
                if chosen < p {
                    assert(!separator_at(name@, chosen));
                }
                if p < chosen {
                    assert(!separator_at(name@, p as int));
                }
            }
            let module = Some(string_of(&chars, 0, p));
            let identifier = string_of(&chars, p + 2, n);
            match self.find_declared(&module, &identifier) {
                Some(i) => {
                    let ghost ci = choose|j: int| declared_at(self@, j, text_view(module), identifier@);
                    assert(ci == i);
                    Ok(i)
                },
                None => Err(NameError::Unknown { name: name.to_owned() }),
            }
        } else {
            let identifier = name.to_owned();
            let local: Option<String> = None;
            match self.find_declared(&local, &identifier) {
                Some(i) => {
                    let ghost ci = choose|j: int| declared_at(self@, j, None, name@);
                    assert(ci == i);
                    Ok(i)
                },
                None => match self.find_imported(&identifier, 0) {
                    None => Err(NameError::Unknown { name: identifier }),
                    Some(i) => match self.find_imported(&identifier, {
                        assert(i < count);
                        i + 1
                    }) {
                        Some(j) => Err(NameError::Ambiguous { name: identifier }),
                        None => {
                            let ghost ci = choose|j: int| imported_at(self@, j, name@);
                            assert(imported_at(self@, i as int, name@));
                            assert(ci == i);
                            Ok(i)
                        },
                    },
                },
            }
        }
    }

    /// Resolves `name` to the symbol that it stands for.
    pub fn resolve(&self, name: &str) -> (r: Result<NamedSymbol, NameError>)
        requires
            self.well_formed(),
        ensures
            match lookup(self@, name@) {
                Lookup::Found(i) => r matches Ok(sym) && 0 <= i < self@.len() && sym@ == self@[i],
                Lookup::Unknown => r matches Err(e) && e@ == (NameErrorView::Unknown { name: name@ }),
                Lookup::Ambiguous => r matches Err(e) && e@ == (NameErrorView::Ambiguous {
                    name: name@,
                }),
            },
    {
        match self.resolve_id(name) {
            Ok(i) => {
                assert(self@[i as int] == self.symbols@[i as int]@);
                Ok(self.symbols[i].clone())
            },
            Err(e) => Err(e),
        }
    }
}

/// The name under which a symbol is surely found: its identifier alone where
/// the compiled schema declares it, else the module, `::` and the identifier.
pub open spec fn full_name(s: SymbolView) -> Seq<char> {
    match s.module {
        None => s.identifier,
        Some(m) => m + seq![':', ':'] + s.identifier,
    }
}

/// Every registered symbol resolves, by its full name, to itself and to no
/// other: whatever else the table holds and however often it is asked, the
/// answer is the same entry, with the canonical name of its identifier.
pub proof fn law_registered_name_resolves(table: Seq<SymbolView>, i: int)
    requires
        consistent(table),
        0 <= i < table.len(),
    ensures
        lookup(table, full_name(table[i])) == Lookup::Found(i),
        table[i].canonical == emitted(table[i].identifier),
{
    let s = table[i];
    let name = full_name(s);
    match s.module {
        None => {
            assert forall|p: int| !separator_at(name, p) by {
                if 0 <= p && p + 1 < name.len() {
                    assert(is_name_char(name[p]));
                }
            }
            assert(declared_at(table, i, None, name));
            let c = choose|j: int| declared_at(table, j, None, name);
            assert(c == i);
        },
        Some(m) => {
            let p = m.len() as int;
            assert(separator_at(name, p));
            assert forall|q: int| 0 <= q < p implies !separator_at(name, q) by {
                assert(name[q] == m[q]);
                assert(is_name_char(m[q]));
            }
            assert(first_separator(name, p));
            let c = choose|q: int| first_separator(name, q);
            assert(c == p) by {
                if c < p {
                    assert(!separator_at(name, c));
                }
                if p < c {
                    assert(!separator_at(name, p));
                }
            }
            assert(name.subrange(0, p) =~= m);
            assert(name.subrange(p + 2, name.len() as int) =~= s.identifier);
            assert(declared_at(table, i, Some(m), s.identifier));
            let ci = choose|j: int| declared_at(table, j, Some(m), s.identifier);
            assert(ci == i);
        },
    }
}

/// What a full name resolves to does not change when another name is
/// registered.
pub proof fn law_resolution_survives_registration(table: Seq<SymbolView>, i: int, added: SymbolView)
    requires
        consistent(table.push(added)),
        0 <= i < table.len(),
    ensures
        lookup(table.push(added), full_name(table[i])) == Lookup::Found(i),
{
    assert(table.push(added)[i] == table[i]);
    law_registered_name_resolves(table.push(added), i);
}

/// What a name is found at is an entry of the table.
pub proof fn lemma_found_in_table(table: Seq<SymbolView>, name: Seq<char>)
    ensures
        lookup(table, name) matches Lookup::Found(i) ==> 0 <= i < table.len(),
{
}

/// Where no registration was refused, the table lists the symbols of the
/// entries in their order.
pub proof fn lemma_register_all_layout(list: Seq<(Option<Seq<char>>, Seq<char>)>)
    ensures
        register_all(list).0.len() + register_all(list).1.len() == list.len(),
        register_all(list).1.len() == 0 ==> forall|i: int|
            0 <= i < list.len() ==> #[trigger] register_all(list).0[i] == symbol_for(
                list[i].0,
                list[i].1,
            ),
    decreases list.len(),
{
    if list.len() > 0 {
        lemma_register_all_layout(list.drop_last());
    }
}

/// The spelling of an optional text.
pub open spec fn text_view(text: Option<String>) -> Option<Seq<char>> {
    match text {
        Some(t) => Some(t@),
        None => None,
    }
}

} // verus!
