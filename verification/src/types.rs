//! Type compatibility and the rules a method override must keep, over a registry of
//! classes: each class with its parent and its methods.

use vstd::prelude::*;
use crate::ast::{Span, Type};
use crate::text::str_eq;

verus! {

/// Two types are the same: the same variant, the same names, the same inner types.
pub open spec fn same_type(a: Type, b: Type) -> bool
    decreases a,
{
    match a {
        Type::Int => b is Int,
        Type::Float => b is Float,
        Type::Bool => b is Bool,
        Type::String => b is String,
        Type::Void => b is Void,
        Type::SelfType => b is SelfType,
        Type::StaticType => b is StaticType,
        Type::Unknown => b is Unknown,
        Type::Class(n) => b matches Type::Class(m) && n@ == m@,
        Type::Interface(n) => b matches Type::Interface(m) && n@ == m@,
        Type::Ref(x) => b matches Type::Ref(y) && same_type(*x, *y),
        Type::RefMut(x) => b matches Type::RefMut(y) && same_type(*x, *y),
        Type::Nullable(x) => b matches Type::Nullable(y) && same_type(*x, *y),
        Type::Array(x) => b matches Type::Array(y) && same_type(*x, *y),
        Type::Closure(ps, r) => b matches Type::Closure(qs, s) && ps@.len() == qs@.len()
            && (forall|j: int| 0 <= j < ps@.len() ==> same_type(#[trigger] ps@[j], qs@[j]))
            && same_type(*r, *s),
    }
}

/// Whether two types are the same.
pub fn type_eq(a: &Type, b: &Type) -> (r: bool)
    ensures
        r == same_type(*a, *b),
    decreases a,
{
    match (a, b) {
        (Type::Int, Type::Int) => true,
        (Type::Float, Type::Float) => true,
        (Type::Bool, Type::Bool) => true,
        (Type::String, Type::String) => true,
        (Type::Void, Type::Void) => true,
        (Type::SelfType, Type::SelfType) => true,
        (Type::StaticType, Type::StaticType) => true,
        (Type::Unknown, Type::Unknown) => true,
        (Type::Class(x), Type::Class(y)) => str_eq(x.as_str(), y.as_str()),
        (Type::Interface(x), Type::Interface(y)) => str_eq(x.as_str(), y.as_str()),
        (Type::Ref(x), Type::Ref(y)) => type_eq(x, y),
        (Type::RefMut(x), Type::RefMut(y)) => type_eq(x, y),
        (Type::Nullable(x), Type::Nullable(y)) => type_eq(x, y),
        (Type::Array(x), Type::Array(y)) => type_eq(x, y),
        (Type::Closure(ps, r), Type::Closure(qs, s)) => {
            if ps.len() != qs.len() {
                return false;
            }
            let mut i: usize = 0;
            while i < ps.len()
                invariant
                    *a == Type::Closure(*ps, *r),
                    *b == Type::Closure(*qs, *s),
                    ps@.len() == qs@.len(),
                    0 <= i <= ps@.len(),
                    forall|j: int| 0 <= j < i ==> same_type(#[trigger] ps@[j], qs@[j]),
                decreases ps@.len() - i,
            {
                proof {
                    assert(decreases_to!(*a => (*a)->Closure_0));
                    assert(decreases_to!(*ps => ps@));
                    assert(decreases_to!(ps@ => ps@[i as int]));
                }
                if !type_eq(&ps[i], &qs[i]) {
                    assert(!same_type(ps@[i as int], qs@[i as int]));
                    return false;
                }
                i = i + 1;
            }
            type_eq(r, s)
        },
        _ => false,
    }
}

/// A method as the registry knows it.
#[derive(Debug)]
pub struct MethodInfo {
    pub name: String,
    pub is_final: bool,
    pub return_type: Type,
}

/// A class as the registry knows it: its name, its parent, whether it is final, its
/// methods.
#[derive(Debug)]
pub struct ClassInfo {
    pub name: String,
    pub parent: Option<String>,
    pub is_final: bool,
    pub methods: Vec<MethodInfo>,
}

/// The classes of a program, by name.
#[derive(Debug)]
pub struct ClassRegistry {
    pub classes: Vec<ClassInfo>,
}

/// The first class at or after `i` named `name`.
pub open spec fn class_index(cs: Seq<ClassInfo>, name: Seq<char>, i: int) -> Option<int>
    decreases cs.len() - i,
{
    if i < 0 || i >= cs.len() {
        None
    } else if cs[i].name@ == name {
        Some(i)
    } else {
        class_index(cs, name, i + 1)
    }
}

proof fn lemma_class_index(cs: Seq<ClassInfo>, name: Seq<char>, i: int)
    ensures
        class_index(cs, name, i) matches Some(k) ==> i <= k < cs.len() && cs[k].name@ == name,
    decreases cs.len() - i,
{
    if 0 <= i < cs.len() && cs[i].name@ != name {
        lemma_class_index(cs, name, i + 1);
    }
}

/// The parent named by class `name`, if that class is registered and has one.
pub open spec fn parent_of(cs: Seq<ClassInfo>, name: Seq<char>) -> Option<Seq<char>> {
    match class_index(cs, name, 0) {
        Some(k) => match cs[k].parent {
            Some(p) => Some(p@),
            None => None,
        },
        None => None,
    }
}

/// `p` is reached from `c` by following parents, at most `fuel` steps.
pub open spec fn ancestor(cs: Seq<ClassInfo>, c: Seq<char>, p: Seq<char>, fuel: nat) -> bool
    decreases fuel,
{
    fuel > 0 && match parent_of(cs, c) {
        Some(q) => q == p || ancestor(cs, q, p, (fuel - 1) as nat),
        None => false,
    }
}

/// Class `c` extends `p`, directly or through its ancestors (a chain of parents has at
/// most as many steps as there are classes).
pub open spec fn subclass(cs: Seq<ClassInfo>, c: Seq<char>, p: Seq<char>) -> bool {
    ancestor(cs, c, p, cs.len())
}

/// The first method at or after `i` named `name`.
pub open spec fn method_index(ms: Seq<MethodInfo>, name: Seq<char>, i: int) -> Option<int>
    decreases ms.len() - i,
{
    if i < 0 || i >= ms.len() {
        None
    } else if ms[i].name@ == name {
        Some(i)
    } else {
        method_index(ms, name, i + 1)
    }
}

proof fn lemma_method_index(ms: Seq<MethodInfo>, name: Seq<char>, i: int)
    ensures
        method_index(ms, name, i) matches Some(k) ==> i <= k < ms.len() && ms[k].name@ == name,
    decreases ms.len() - i,
{
    if 0 <= i < ms.len() && ms[i].name@ != name {
        lemma_method_index(ms, name, i + 1);
    }
}

/// The method `m` that class `c` declares or inherits, looking at most `fuel` classes up.
pub open spec fn method_lookup(cs: Seq<ClassInfo>, c: Seq<char>, m: Seq<char>, fuel: nat) -> Option<MethodInfo>
    decreases fuel,
{
    if fuel == 0 {
        None
    } else {
        match class_index(cs, c, 0) {
            None => None,
            Some(k) => match method_index(cs[k].methods@, m, 0) {
                Some(j) => Some(cs[k].methods@[j]),
                None => match cs[k].parent {
                    Some(p) => method_lookup(cs, p@, m, (fuel - 1) as nat),
                    None => None,
                },
            },
        }
    }
}

/// The method `m` of class `c`, its own or inherited.
pub open spec fn find_method(cs: Seq<ClassInfo>, c: Seq<char>, m: Seq<char>) -> Option<MethodInfo> {
    method_lookup(cs, c, m, cs.len())
}

/// A value of type `a` may stand where type `e` is expected: the same type, an integer
/// for a float, an unknown type on either side, a subclass for its parent class, or
/// anything that fits the inner type of a nullable type.
pub open spec fn compatible(cs: Seq<ClassInfo>, e: Type, a: Type) -> bool
    decreases e,
{
    ||| same_type(e, a)
    ||| (e is Float && a is Int)
    ||| e is Unknown
    ||| a is Unknown
    ||| (e matches Type::Class(x) && a matches Type::Class(y) && subclass(cs, y@, x@))
    ||| (e matches Type::Nullable(inner) && compatible(cs, *inner, a))
}

impl ClassRegistry {
    /// An empty registry.
    pub fn new() -> (r: Self)
        ensures
            r.classes@ == Seq::<ClassInfo>::empty(),
    {
        ClassRegistry { classes: Vec::new() }
    }

    /// The index of the class named `name`.
    pub fn find_class(&self, name: &str) -> (r: Option<usize>)
        ensures
            match r {
                Some(k) => class_index(self.classes@, name@, 0) == Some(k as int)
                    && k < self.classes@.len(),
                None => class_index(self.classes@, name@, 0) is None,
            },
    {
        proof {
            lemma_class_index(self.classes@, name@, 0);
        }
        let mut i: usize = 0;
        while i < self.classes.len()
            invariant
                0 <= i <= self.classes@.len(),
                class_index(self.classes@, name@, 0) == class_index(self.classes@, name@, i as int),
            decreases self.classes@.len() - i,
        {
            if str_eq(self.classes[i].name.as_str(), name) {
                return Some(i);
            }
            i = i + 1;
        }
        None
    }

    /// Whether a class named `name` is registered.
    pub fn class_exists(&self, name: &str) -> (r: bool)
        ensures
            r == class_index(self.classes@, name@, 0) is Some,
    {
        self.find_class(name).is_some()
    }

    /// Registers a class; one registered earlier under the same name is replaced.
    pub fn register_class(&mut self, info: ClassInfo)
        ensures
            final(self).classes@ == registered(old(self).classes@, info),
    {
        match self.find_class(info.name.as_str()) {
            Some(k) => {
                self.classes.set(k, info);
            },
            None => {
                self.classes.push(info);
            },
        }
    }

    /// Whether class `child` extends `parent`, directly or through its ancestors.
    pub fn is_subclass(&self, child: &str, parent: &str) -> (r: bool)
        ensures
            r == subclass(self.classes@, child@, parent@),
    {
        let n = self.classes.len();
        let mut cur: &str = child;
        let mut steps: usize = 0;
        while steps < n
            invariant
                n == self.classes@.len(),
                steps <= n,
                subclass(self.classes@, child@, parent@) == ancestor(self.classes@, cur@, parent@, (n - steps) as nat),
            decreases n - steps,
        {
            match self.find_class(cur) {
                None => {
                    return false;
                },
                Some(k) => match &self.classes[k].parent {
                    None => {
                        return false;
                    },
                    Some(q) => {
                        if str_eq(q.as_str(), parent) {
                            return true;
                        }
                        cur = q.as_str();
                    },
                },
            }
            steps = steps + 1;
        }
        false
    }

    /// The method `name` of class `class`: its own, or else the nearest ancestor's.
    pub fn get_method(&self, class: &str, name: &str) -> (r: Option<&MethodInfo>)
        ensures
            match r {
                Some(m) => find_method(self.classes@, class@, name@) == Some(*m),
                None => find_method(self.classes@, class@, name@) is None,
            },
    {
        let n = self.classes.len();
        let mut cur: &str = class;
        let mut steps: usize = 0;
        while steps < n
            invariant
                n == self.classes@.len(),
                steps <= n,
                find_method(self.classes@, class@, name@) == method_lookup(self.classes@, cur@, name@, (n - steps) as nat),
            decreases n - steps,
        {
            match self.find_class(cur) {
                None => {
                    return None;
                },
                Some(k) => {
                    let ms = &self.classes[k].methods;
                    let mut j: usize = 0;
                    while j < ms.len()
                        invariant
                            n == self.classes@.len(),
                            steps < n,
                            k < n,
                            find_method(self.classes@, class@, name@) == method_lookup(self.classes@, cur@, name@, (n - steps) as nat),
                            class_index(self.classes@, cur@, 0) == Some(k as int),
                            ms@ == self.classes@[k as int].methods@,
                            0 <= j <= ms@.len(),
                            method_index(ms@, name@, 0) == method_index(ms@, name@, j as int),
                        decreases ms@.len() - j,
                    {
                        if str_eq(ms[j].name.as_str(), name) {
                            proof {
                                lemma_method_index(ms@, name@, 0);
                            }
                            return Some(&ms[j]);
                        }
                        j = j + 1;
                    }
                    match &self.classes[k].parent {
                        None => {
                            return None;
                        },
                        Some(q) => {
                            cur = q.as_str();
                        },
                    }
                },
            }
            steps = steps + 1;
        }
        None
    }
}

/// The classes after registering `info` into `cs`: one of the same name is replaced.
pub open spec fn registered(cs: Seq<ClassInfo>, info: ClassInfo) -> Seq<ClassInfo> {
    match class_index(cs, info.name@, 0) {
        Some(k) => cs.update(k, info),
        None => cs.push(info),
    }
}

/// The classes after registering the first `k` of `infos` in order into an empty registry.
pub open spec fn built(infos: Seq<ClassInfo>, k: int) -> Seq<ClassInfo>
    decreases k,
{
    if k <= 0 {
        Seq::empty()
    } else {
        registered(built(infos, k - 1), infos[k - 1])
    }
}

/// A registry holding `classes`, registered in order (a later class replaces an earlier
/// one of the same name).
pub fn build_class_registry(classes: Vec<ClassInfo>) -> (r: ClassRegistry)
    ensures
        r.classes@ == built(classes@, classes@.len() as int),
{
    let ghost all = classes@;
    let mut rest = classes;
    let mut reg = ClassRegistry::new();
    while rest.len() > 0
        invariant
            rest@.len() <= all.len(),
            rest@ == all.subrange(all.len() - rest@.len(), all.len() as int),
            reg.classes@ == built(all, all.len() - rest@.len()),
        decreases rest@.len(),
    {
        let ghost k = all.len() - rest@.len();
        let ghost before = rest@;
        let info = rest.remove(0);
        proof {
            assert(info == before[0]);
            assert(before[0] == all[k]);
            assert(rest@ =~= all.subrange(all.len() - rest@.len(), all.len() as int));
        }
        reg.register_class(info);
    }
    reg
}

proof fn lemma_same_type_refl(t: Type)
    ensures
        same_type(t, t),
    decreases t,
{
    match t {
        Type::Ref(x) => lemma_same_type_refl(*x),
        Type::RefMut(x) => lemma_same_type_refl(*x),
        Type::Nullable(x) => lemma_same_type_refl(*x),
        Type::Array(x) => lemma_same_type_refl(*x),
        Type::Closure(ps, r) => {
            assert forall|j: int| 0 <= j < ps@.len() implies same_type(#[trigger] ps@[j], ps@[j]) by {
                assert(decreases_to!(t => ps));
                assert(decreases_to!(ps => ps@));
                assert(decreases_to!(ps@ => ps@[j]));
                lemma_same_type_refl(ps@[j]);
            }
            lemma_same_type_refl(*r);
        },
        _ => {},
    }
}

/// Every type fits where it is itself expected; a subclass fits where its parent class
/// is expected; and whatever fits a type fits its nullable form.
pub proof fn law_compatible(cs: Seq<ClassInfo>, t: Type, e: Type, a: Type, child: String, parent: String)
    ensures
        compatible(cs, t, t),
        subclass(cs, child@, parent@) ==> compatible(cs, Type::Class(parent), Type::Class(child)),
        compatible(cs, e, a) ==> compatible(cs, Type::Nullable(Box::new(e)), a),
{
    lemma_same_type_refl(t);
}

/// A nullable value fits only where a nullable or unknown type is expected; an integer
/// fits where a float is expected but not the other way round; and where `int`, `bool`,
/// `string` or `void` is expected, only that same type or an unknown one fits.
pub proof fn law_compatible_directions(cs: Seq<ClassInfo>, e: Type, a: Type, x: Type)
    ensures
        !(e is Nullable) && !(e is Unknown) ==> !compatible(cs, e, Type::Nullable(Box::new(x))),
        compatible(cs, Type::Float, Type::Int),
        !compatible(cs, Type::Int, Type::Float),
        (e is Int || e is Bool || e is String || e is Void) ==> (compatible(cs, e, a) <==> (
            a is Unknown || (e is Int && a is Int) || (e is Bool && a is Bool) || (e is String
                && a is String) || (e is Void && a is Void))),
{
}

/// A registered class extends the parent it names, and any class that parent extends; it
/// has its own methods ahead of inherited ones.
pub proof fn law_registry_lookups(cs: Seq<ClassInfo>, c: Seq<char>, k: int, m: Seq<char>, j: int)
    requires
        class_index(cs, c, 0) == Some(k),
    ensures
        cs[k].parent matches Some(p) ==> subclass(cs, c, p@),
        method_index(cs[k].methods@, m, 0) == Some(j) ==> find_method(cs, c, m) == Some(cs[k].methods@[j]),
        cs[k].parent is Some && method_index(cs[k].methods@, m, 0) is None
            ==> find_method(cs, c, m) == method_lookup(cs, cs[k].parent->0@, m, (cs.len() - 1) as nat),
{
    lemma_class_index(cs, c, 0);
}

/// Checking a method that overrides a final method fails with that error, whatever else
/// holds of it; an override whose return type does not fit fails too.
pub proof fn law_override(cs: Seq<ClassInfo>, parent: Seq<char>, m: MethodDecl)
    ensures
        find_method(cs, parent, m.name@) matches Some(pm) && pm.is_final
            ==> method_rule(cs, Some(parent), m) == Err::<(), TypeError>(TypeError::FinalOverride { span: m.span }),
        find_method(cs, parent, m.name@) matches Some(pm) && !pm.is_final && !compatible(cs, pm.return_type, m.return_type)
            ==> method_rule(cs, Some(parent), m) == Err::<(), TypeError>(TypeError::IncompatibleReturn { span: m.span }),
{
}

/// Why a class or a method does not type-check.
#[derive(Debug, Clone, Copy, PartialEq, Eq, Structural)]
pub enum TypeError {
    /// The parent class is not registered.
    ParentNotFound { span: Span },
    /// The parent class is final.
    FinalParent { span: Span },
    /// The method overrides a final method.
    FinalOverride { span: Span },
    /// The method's return type does not fit the return type of the method it overrides.
    IncompatibleReturn { span: Span },
    /// An abstract method has a body.
    AbstractWithBody { span: Span },
}

/// A method declaration as the checker reads it.
#[derive(Debug)]
pub struct MethodDecl {
    pub name: String,
    pub return_type: Type,
    pub is_abstract: bool,
    pub has_body: bool,
    pub span: Span,
}

/// A class declaration as the checker reads it.
#[derive(Debug)]
pub struct ClassDecl {
    pub name: String,
    pub parent: Option<String>,
    pub methods: Vec<MethodDecl>,
    pub span: Span,
}

/// What checking method `m` of a class whose parent is `parent` gives: a final method
/// cannot be overridden; an override's return type must fit the overridden one's
/// (covariance); an abstract method has no body.
pub open spec fn method_rule(cs: Seq<ClassInfo>, parent: Option<Seq<char>>, m: MethodDecl) -> Result<(), TypeError> {
    let inherited = match parent {
        Some(p) => find_method(cs, p, m.name@),
        None => None,
    };
    match inherited {
        Some(pm) => if pm.is_final {
            Err(TypeError::FinalOverride { span: m.span })
        } else if !compatible(cs, pm.return_type, m.return_type) {
            Err(TypeError::IncompatibleReturn { span: m.span })
        } else if m.is_abstract && m.has_body {
            Err(TypeError::AbstractWithBody { span: m.span })
        } else {
            Ok(())
        },
        None => if m.is_abstract && m.has_body {
            Err(TypeError::AbstractWithBody { span: m.span })
        } else {
            Ok(())
        },
    }
}

/// The first error among methods `i..` of `ms`.
pub open spec fn methods_rule(cs: Seq<ClassInfo>, parent: Option<Seq<char>>, ms: Seq<MethodDecl>, i: int) -> Result<(), TypeError>
    decreases ms.len() - i,
{
    if i < 0 || i >= ms.len() {
        Ok(())
    } else {
        match method_rule(cs, parent, ms[i]) {
            Err(e) => Err(e),
            Ok(_) => methods_rule(cs, parent, ms, i + 1),
        }
    }
}

/// The parent of a class, as text.
pub open spec fn parent_text(c: ClassDecl) -> Option<Seq<char>> {
    match c.parent {
        Some(p) => Some(p@),
        None => None,
    }
}

/// What checking class `c` gives: its parent, if it names one, is registered and not
/// final; then each method in order.
pub open spec fn class_rule(cs: Seq<ClassInfo>, c: ClassDecl) -> Result<(), TypeError> {
    match parent_text(c) {
        Some(p) => match class_index(cs, p, 0) {
            None => Err(TypeError::ParentNotFound { span: c.span }),
            Some(k) => if cs[k].is_final {
                Err(TypeError::FinalParent { span: c.span })
            } else {
                methods_rule(cs, Some(p), c.methods@, 0)
            },
        },
        None => methods_rule(cs, None, c.methods@, 0),
    }
}

/// Checks classes and their methods against a registry of classes.
#[derive(Debug)]
pub struct TypeChecker {
    pub registry: ClassRegistry,
}

impl TypeChecker {
    /// A checker over `registry`.
    pub fn new(registry: ClassRegistry) -> (r: Self)
        ensures
            r.registry == registry,
    {
        TypeChecker { registry }
    }

    /// Whether a value of type `actual` may stand where `expected` is expected.
    pub fn types_compatible(&self, expected: &Type, actual: &Type) -> (r: bool)
        ensures
            r == compatible(self.registry.classes@, *expected, *actual),
        decreases expected,
    {
        if type_eq(expected, actual) {
            return true;
        }
        if matches!(expected, Type::Float) && matches!(actual, Type::Int) {
            return true;
        }
        if matches!(expected, Type::Unknown) || matches!(actual, Type::Unknown) {
            return true;
        }
        if let (Type::Class(e), Type::Class(a)) = (expected, actual) {
            if self.registry.is_subclass(a.as_str(), e.as_str()) {
                return true;
            }
        }
        if let Type::Nullable(inner) = expected {
            if self.types_compatible(inner, actual) {
                return true;
            }
        }
        false
    }

    /// Checks method `method` of a class whose parent is `parent`: the override rules,
    /// then that an abstract method has no body.
    pub fn check_method(&self, parent: &Option<String>, method: &MethodDecl) -> (r: Result<(), TypeError>)
        ensures
            r == method_rule(
                self.registry.classes@,
                match parent {
                    Some(p) => Some(p@),
                    None => None,
                },
                *method,
            ),
    {
        if let Some(p) = parent {
            if let Some(pm) = self.registry.get_method(p.as_str(), method.name.as_str()) {
                if pm.is_final {
                    return Err(TypeError::FinalOverride { span: method.span });
                }
                if !self.types_compatible(&pm.return_type, &method.return_type) {
                    return Err(TypeError::IncompatibleReturn { span: method.span });
                }
            }
        }
        if method.is_abstract && method.has_body {
            return Err(TypeError::AbstractWithBody { span: method.span });
        }
        Ok(())
    }

    /// Checks class `class`: its parent is registered and not final, then each method in
    /// order; the first error stops the check.
    pub fn check_class(&self, class: &ClassDecl) -> (r: Result<(), TypeError>)
        ensures
            r == class_rule(self.registry.classes@, *class),
    {
        if let Some(p) = &class.parent {
            match self.registry.find_class(p.as_str()) {
                None => {
                    return Err(TypeError::ParentNotFound { span: class.span });
                },
                Some(k) => {
                    if self.registry.classes[k].is_final {
                        return Err(TypeError::FinalParent { span: class.span });
                    }
                },
            }
        }
        let mut i: usize = 0;
        while i < class.methods.len()
            invariant
                0 <= i <= class.methods@.len(),
                class_rule(self.registry.classes@, *class) == (match parent_text(*class) {
                    Some(p) => methods_rule(self.registry.classes@, Some(p), class.methods@, i as int),
                    None => methods_rule(self.registry.classes@, None, class.methods@, i as int),
                }),
            decreases class.methods@.len() - i,
        {
            let r = self.check_method(&class.parent, &class.methods[i]);
            if r.is_err() {
                return r;
            }
            i = i + 1;
        }
        Ok(())
    }
}

} // verus!
