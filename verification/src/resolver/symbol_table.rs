//! Symbol table for namespace resolution.

use vstd::prelude::*;
use crate::ast::{QualifiedName, Span, UseKind};
use crate::text::str_eq;

verus! {

/// A symbol that can be imported.
#[derive(Debug)]
pub enum Symbol {
    Class(QualifiedName),
    Function(QualifiedName),
    Constant(QualifiedName),
    Trait(QualifiedName),
}

/// A qualified name as plain values: segments, absoluteness and span.
pub type NameView = (Seq<Seq<char>>, bool, Span);

/// The plain values of a qualified name.
pub open spec fn name_view(q: QualifiedName) -> NameView {
    (q.segs(), q.is_absolute, q.span)
}

/// The qualified name a symbol stands for.
pub open spec fn symbol_name(s: Symbol) -> QualifiedName {
    match s {
        Symbol::Class(q) => q,
        Symbol::Function(q) => q,
        Symbol::Constant(q) => q,
        Symbol::Trait(q) => q,
    }
}

/// The symbol is of the kind a `use` of kind `k` imports.
pub open spec fn symbol_matches(k: UseKind, s: Symbol) -> bool {
    match (k, s) {
        (UseKind::Class, Symbol::Class(_)) => true,
        (UseKind::Function, Symbol::Function(_)) => true,
        (UseKind::Const, Symbol::Constant(_)) => true,
        _ => false,
    }
}

impl Symbol {
    /// The qualified name of this symbol.
    pub fn qualified_name(&self) -> (r: &QualifiedName)
        ensures
            *r == symbol_name(*self),
    {
        match self {
            Symbol::Class(q) => q,
            Symbol::Function(q) => q,
            Symbol::Constant(q) => q,
            Symbol::Trait(q) => q,
        }
    }
}

/// Keys of an association list are pairwise distinct.
pub open spec fn keys_distinct<V>(e: Seq<(String, V)>) -> bool {
    forall|i: int, j: int| 0 <= i < j < e.len() ==> e[i].0@ != e[j].0@
}

/// The value stored under `key`, if any.
pub open spec fn lookup<V>(e: Seq<(String, V)>, key: Seq<char>) -> Option<V> {
    if exists|i: int| 0 <= i < e.len() && e[i].0@ == key {
        Some(e[choose|i: int| 0 <= i < e.len() && e[i].0@ == key].1)
    } else {
        None
    }
}

proof fn lemma_lookup_at<V>(e: Seq<(String, V)>, key: Seq<char>, i: int)
    requires
        keys_distinct(e),
        0 <= i < e.len(),
        e[i].0@ == key,
    ensures
        lookup(e, key) == Some(e[i].1),
{
    let c = choose|j: int| 0 <= j < e.len() && e[j].0@ == key;
    if c != i {
        if c < i {
            assert(e[c].0@ != e[i].0@);
        } else {
            assert(e[i].0@ != e[c].0@);
        }
    }
}

/// Index of `key` in an association list, if present.
fn position<V>(e: &Vec<(String, V)>, key: &str) -> (r: Option<usize>)
    ensures
        r matches Some(i) ==> i < e@.len() && e@[i as int].0@ == key@,
        r is None ==> forall|i: int| 0 <= i < e@.len() ==> e@[i].0@ != key@,
{
    let n = e.len();
    let mut i: usize = 0;
    while i < n
        invariant
            n == e@.len(),
            0 <= i <= n,
            forall|j: int| 0 <= j < i ==> e@[j].0@ != key@,
        decreases n - i,
    {
        if str_eq(e[i].0.as_str(), key) {
            return Some(i);
        }
        i = i + 1;
    }
    None
}

/// Stores `value` under `key`, replacing what was stored there.
fn store<V>(e: &mut Vec<(String, V)>, key: String, value: V)
    requires
        keys_distinct(old(e)@),
    ensures
        keys_distinct(final(e)@),
        forall|k: Seq<char>| k != key@ ==> lookup(final(e)@, k) == lookup(old(e)@, k),
        lookup(final(e)@, key@) == Some(value),
{
    let ghost before = e@;
    let ghost kv = key@;
    match position(e, key.as_str()) {
        Some(i) => {
            e.set(i, (key, value));
            proof {
                assert forall|a: int, b: int| 0 <= a < b < e@.len() implies e@[a].0@ != e@[b].0@ by {
                    if a != i && b != i {
                        assert(before[a].0@ != before[b].0@);
                    } else if a == i {
                        assert(before[a].0@ != before[b].0@);
                    } else {
                        assert(before[a].0@ != before[b].0@);
                    }
                }
                lemma_lookup_at(e@, kv, i as int);
                assert forall|k: Seq<char>| k != kv implies lookup(e@, k) == lookup(before, k) by {
                    if exists|j: int| 0 <= j < before.len() && before[j].0@ == k {
                        let j = choose|j: int| 0 <= j < before.len() && before[j].0@ == k;
                        lemma_lookup_at(before, k, j);
                        assert(j != i);
                        lemma_lookup_at(e@, k, j);
                    } else {
                        assert forall|j: int| 0 <= j < e@.len() implies e@[j].0@ != k by {
                            if j != i {
                                assert(before[j].0@ != k);
                            }
                        }
                    }
                }
            }
        },
        None => {
            e.push((key, value));
            proof {
                let n = before.len();
                assert forall|a: int, b: int| 0 <= a < b < e@.len() implies e@[a].0@ != e@[b].0@ by {
                    if b == n {
                        assert(before[a].0@ != kv);
                    } else {
                        assert(before[a].0@ != before[b].0@);
                    }
                }
                lemma_lookup_at(e@, kv, n as int);
                assert forall|k: Seq<char>| k != kv implies lookup(e@, k) == lookup(before, k) by {
                    if exists|j: int| 0 <= j < before.len() && before[j].0@ == k {
                        let j = choose|j: int| 0 <= j < before.len() && before[j].0@ == k;
                        lemma_lookup_at(before, k, j);
                        lemma_lookup_at(e@, k, j);
                    } else {
                        assert forall|j: int| 0 <= j < e@.len() implies e@[j].0@ != k by {
                            if j < n {
                                assert(before[j].0@ != k);
                            }
                        }
                    }
                }
            }
        },
    }
}

/// Symbol table for a compilation unit.
#[derive(Debug)]
pub struct SymbolTable {
    /// Current namespace.
    pub namespace: Option<QualifiedName>,
    imports: Vec<(String, Symbol)>,
    defined_classes: Vec<(String, QualifiedName)>,
    defined_functions: Vec<(String, QualifiedName)>,
    defined_traits: Vec<(String, QualifiedName)>,
}

/// The name `ns\name`: the namespace's segments and then `name`, relative, with an empty
/// span.
pub open spec fn in_namespace(ns: QualifiedName, name: Seq<char>) -> NameView {
    (ns.segs().push(name), false, Span { start: 0, end: 0 })
}

/// A name imported under `alias` as a class, a function or a constant resolves, for
/// that kind, to the imported path, whatever is defined locally or in the namespace;
/// an import of another kind does not answer for it.
pub proof fn law_import_resolves(t: SymbolTable, alias: Seq<char>, path: QualifiedName, kind: UseKind, other: UseKind)
    ensures
        t.import_of(alias) == Some(
            match kind {
                UseKind::Class => Symbol::Class(path),
                UseKind::Function => Symbol::Function(path),
                UseKind::Const => Symbol::Constant(path),
            },
        ) ==> t.resolved(alias, kind) == name_view(path),
        t.import_of(alias) == Some(
            match kind {
                UseKind::Class => Symbol::Class(path),
                UseKind::Function => Symbol::Function(path),
                UseKind::Const => Symbol::Constant(path),
            },
        ) && other != kind && t.ns() is None && t.class_of(alias) is None && t.function_of(alias) is None
            ==> t.resolved(alias, other) == (seq![alias], false, Span { start: 0, end: 0 }),
{
}

/// Without an import that answers for it, a class or function name defined in the unit
/// resolves to its definition, ahead of the namespace; a name neither imported nor
/// defined resolves into the current namespace, or stays as it is in the global one.
pub proof fn law_resolve_fallbacks(t: SymbolTable, name: Seq<char>, kind: UseKind, q: QualifiedName, ns: QualifiedName)
    ensures
        t.import_of(name) is None && kind == UseKind::Class && t.class_of(name) == Some(q)
            ==> t.resolved(name, kind) == name_view(q),
        t.import_of(name) is None && kind == UseKind::Function && t.function_of(name) == Some(q)
            ==> t.resolved(name, kind) == name_view(q),
        t.import_of(name) is None && t.class_of(name) is None && t.function_of(name) is None
            && t.ns() == Some(ns) ==> t.resolved(name, kind).0 == ns.segs().push(name)
            && !t.resolved(name, kind).1,
        t.import_of(name) is None && t.class_of(name) is None && t.function_of(name) is None
            && t.ns() is None ==> t.resolved(name, kind).0 == seq![name],
{
}

impl SymbolTable {
    /// The current namespace.
    pub closed spec fn ns(&self) -> Option<QualifiedName> {
        self.namespace
    }

    /// Imported symbols by alias, in the order the aliases were first imported.
    pub closed spec fn import_entries(&self) -> Seq<(String, Symbol)> {
        self.imports@
    }

    /// The symbol imported under `alias`.
    pub open spec fn import_of(&self, alias: Seq<char>) -> Option<Symbol> {
        lookup(self.import_entries(), alias)
    }

    /// The class defined under `name`.
    pub closed spec fn class_of(&self, name: Seq<char>) -> Option<QualifiedName> {
        lookup(self.defined_classes@, name)
    }

    /// The function defined under `name`.
    pub closed spec fn function_of(&self, name: Seq<char>) -> Option<QualifiedName> {
        lookup(self.defined_functions@, name)
    }

    /// The trait defined under `name`.
    pub closed spec fn trait_of(&self, name: Seq<char>) -> Option<QualifiedName> {
        lookup(self.defined_traits@, name)
    }

    /// Each table holds at most one entry per name.
    pub closed spec fn wf(&self) -> bool {
        &&& keys_distinct(self.imports@)
        &&& keys_distinct(self.defined_classes@)
        &&& keys_distinct(self.defined_functions@)
        &&& keys_distinct(self.defined_traits@)
    }

    /// What `name` of kind `kind` resolves to: a matching import, else a local class or
    /// function definition, else the name in the current namespace, else the name itself
    /// in the global namespace.
    pub open spec fn resolved(&self, name: Seq<char>, kind: UseKind) -> NameView {
        if self.import_of(name) is Some && symbol_matches(kind, self.import_of(name).unwrap()) {
            name_view(symbol_name(self.import_of(name).unwrap()))
        } else if kind == UseKind::Class && self.class_of(name) is Some {
            name_view(self.class_of(name).unwrap())
        } else if kind == UseKind::Function && self.function_of(name) is Some {
            name_view(self.function_of(name).unwrap())
        } else if self.ns() is Some {
            in_namespace(self.ns().unwrap(), name)
        } else {
            (seq![name], false, Span { start: 0, end: 0 })
        }
    }

    /// An empty table in the global namespace.
    pub fn new() -> (r: Self)
        ensures
            r.wf(),
            r.ns() is None,
            r.import_entries().len() == 0,
            forall|k: Seq<char>| r.class_of(k) is None && r.function_of(k) is None && r.trait_of(k) is None,
    {
        SymbolTable {
            namespace: None,
            imports: Vec::new(),
            defined_classes: Vec::new(),
            defined_functions: Vec::new(),
            defined_traits: Vec::new(),
        }
    }

    /// Sets the namespace of the unit.
    pub fn set_namespace(&mut self, ns: QualifiedName)
        requires
            old(self).wf(),
        ensures
            final(self).wf(),
            final(self).ns() == Some(ns),
            final(self).import_entries() == old(self).import_entries(),
            forall|k: Seq<char>| #![auto] final(self).class_of(k) == old(self).class_of(k)
                && final(self).function_of(k) == old(self).function_of(k)
                && final(self).trait_of(k) == old(self).trait_of(k),
    {
        self.namespace = Some(ns);
    }

    /// Imports `path` under `alias`, as a class, function or constant.
    pub fn add_import(&mut self, alias: String, path: QualifiedName, kind: UseKind)
        requires
            old(self).wf(),
        ensures
            final(self).wf(),
            keys_distinct(final(self).import_entries()),
            final(self).import_of(alias@) == Some(
                match kind {
                    UseKind::Class => Symbol::Class(path),
                    UseKind::Function => Symbol::Function(path),
                    UseKind::Const => Symbol::Constant(path),
                },
            ),
            forall|k: Seq<char>| k != alias@ ==> final(self).import_of(k) == old(self).import_of(k),
            final(self).ns() == old(self).ns(),
            forall|k: Seq<char>| #![auto] final(self).class_of(k) == old(self).class_of(k)
                && final(self).function_of(k) == old(self).function_of(k)
                && final(self).trait_of(k) == old(self).trait_of(k),
    {
        let symbol = match kind {
            UseKind::Class => Symbol::Class(path),
            UseKind::Function => Symbol::Function(path),
            UseKind::Const => Symbol::Constant(path),
        };
        store(&mut self.imports, alias, symbol);
    }

    /// Registers a class defined in this unit.
    pub fn define_class(&mut self, name: &str, qualified: QualifiedName)
        requires
            old(self).wf(),
        ensures
            final(self).wf(),
            final(self).class_of(name@) == Some(qualified),
            forall|k: Seq<char>| k != name@ ==> final(self).class_of(k) == old(self).class_of(k),
            final(self).ns() == old(self).ns(),
            final(self).import_entries() == old(self).import_entries(),
            forall|k: Seq<char>| #![auto] final(self).function_of(k) == old(self).function_of(k)
                && final(self).trait_of(k) == old(self).trait_of(k),
    {
        store(&mut self.defined_classes, name.to_owned(), qualified);
    }

    /// Registers a function defined in this unit.
    pub fn define_function(&mut self, name: &str, qualified: QualifiedName)
        requires
            old(self).wf(),
        ensures
            final(self).wf(),
            final(self).function_of(name@) == Some(qualified),
            forall|k: Seq<char>| k != name@ ==> final(self).function_of(k) == old(self).function_of(k),
            final(self).ns() == old(self).ns(),
            final(self).import_entries() == old(self).import_entries(),
            forall|k: Seq<char>| #![auto] final(self).class_of(k) == old(self).class_of(k)
                && final(self).trait_of(k) == old(self).trait_of(k),
    {
        store(&mut self.defined_functions, name.to_owned(), qualified);
    }

    /// Registers a trait defined in this unit.
    pub fn define_trait(&mut self, name: &str, qualified: QualifiedName)
        requires
            old(self).wf(),
        ensures
            final(self).wf(),
            final(self).trait_of(name@) == Some(qualified),
            forall|k: Seq<char>| k != name@ ==> final(self).trait_of(k) == old(self).trait_of(k),
            final(self).ns() == old(self).ns(),
            final(self).import_entries() == old(self).import_entries(),
            forall|k: Seq<char>| #![auto] final(self).class_of(k) == old(self).class_of(k)
                && final(self).function_of(k) == old(self).function_of(k),
    {
        store(&mut self.defined_traits, name.to_owned(), qualified);
    }

    /// Resolves `name` of kind `kind` to its fully qualified form (always `Some`).
    pub fn resolve(&self, name: &str, kind: UseKind) -> (r: Option<QualifiedName>)
        requires
            self.wf(),
        ensures
            r matches Some(q) && name_view(q) == self.resolved(name@, kind),
    {
        let imported = position(&self.imports, name);
        if let Some(i) = imported {
            proof {
                lemma_lookup_at(self.imports@, name@, i as int);
            }
            let symbol = &self.imports[i].1;
            let matches_kind = match (kind, symbol) {
                (UseKind::Class, Symbol::Class(_)) => true,
                (UseKind::Function, Symbol::Function(_)) => true,
                (UseKind::Const, Symbol::Constant(_)) => true,
                _ => false,
            };
            if matches_kind {
                return Some(symbol.qualified_name().duplicate());
            }
        } else {
            proof {
                assert(self.import_of(name@) is None);
            }
        }
        match kind {
            UseKind::Class => {
                if let Some(i) = position(&self.defined_classes, name) {
                    proof {
                        lemma_lookup_at(self.defined_classes@, name@, i as int);
                    }
                    return Some(self.defined_classes[i].1.duplicate());
                }
                proof {
                    assert(self.class_of(name@) is None);
                }
            },
            UseKind::Function => {
                if let Some(i) = position(&self.defined_functions, name) {
                    proof {
                        lemma_lookup_at(self.defined_functions@, name@, i as int);
                    }
                    return Some(self.defined_functions[i].1.duplicate());
                }
                proof {
                    assert(self.function_of(name@) is None);
                }
            },
            UseKind::Const => {},
        }
        if let Some(ns) = &self.namespace {
            let base = ns.duplicate();
            let mut segments = base.segments;
            segments.push(name.to_owned());
            let r = QualifiedName::new(segments, false, Span::default());
            proof {
                assert(r.segs() =~= ns.segs().push(name@));
            }
            return Some(r);
        }
        Some(QualifiedName::simple(name.to_owned(), Span::default()))
    }

    /// Resolves a qualified name: absolute and multi-segment names stay as they are, a
    /// single segment is resolved like a plain name.
    pub fn resolve_qualified(&self, qn: &QualifiedName, kind: UseKind) -> (r: QualifiedName)
        requires
            self.wf(),
        ensures
            name_view(r) == (if qn.is_absolute || qn.segs().len() != 1 {
                name_view(*qn)
            } else {
                self.resolved(qn.segs()[0], kind)
            }),
    {
        if qn.is_absolute || qn.segments.len() > 1 {
            return qn.duplicate();
        }
        if qn.segments.len() == 1 {
            let name = qn.segments[0].as_str();
            match self.resolve(name, kind) {
                Some(resolved) => {
                    return resolved;
                },
                None => {},
            }
        }
        qn.duplicate()
    }

    /// All imports, as alias and symbol.
    pub fn imports(&self) -> (r: &[(String, Symbol)])
        requires
            self.wf(),
        ensures
            r@ == self.import_entries(),
            keys_distinct(r@),
    {
        self.imports.as_slice()
    }
}

impl Default for SymbolTable {
    fn default() -> (r: Self)
        ensures
            r.wf(),
            r.ns() is None,
            r.import_entries().len() == 0,
            forall|k: Seq<char>| r.class_of(k) is None && r.function_of(k) is None && r.trait_of(k) is None,
    {
        SymbolTable::new()
    }
}

} // verus!
