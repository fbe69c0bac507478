//! The parts of the syntax tree that name resolution and the standard library
//! declarations use: types, qualified names, spans, attributes and function declarations.

use vstd::prelude::*;
use vstd::string::StringExecFns;

verus! {

/// Type representation in the syntax tree.
#[derive(Debug, PartialEq, Eq)]
pub enum Type {
    /// 64-bit signed integer
    Int,
    /// 64-bit floating point
    Float,
    /// Boolean
    Bool,
    /// Heap-allocated string
    String,
    /// No return value
    Void,
    /// Reference type (borrow)
    Ref(Box<Type>),
    /// Mutable reference type
    RefMut(Box<Type>),
    /// Class/object type
    Class(String),
    /// Interface type
    Interface(String),
    /// Nullable type (T or null)
    Nullable(Box<Type>),
    /// Array type
    Array(Box<Type>),
    /// Closure type: parameter types and return type
    Closure(Vec<Type>, Box<Type>),
    /// Self type (inside class)
    SelfType,
    /// Static type (late static binding)
    StaticType,
    /// Unknown type (to be inferred)
    Unknown,
}

/// How a type is written in source text.
pub open spec fn type_text(t: Type) -> Seq<char>
    decreases t,
{
    match t {
        Type::Int => "int"@,
        Type::Float => "float"@,
        Type::Bool => "bool"@,
        Type::String => "string"@,
        Type::Void => "void"@,
        Type::Ref(inner) => "&"@ + type_text(*inner),
        Type::RefMut(inner) => "&mut "@ + type_text(*inner),
        Type::Class(name) => name@,
        Type::Interface(name) => name@,
        Type::Nullable(inner) => "?"@ + type_text(*inner),
        Type::Array(inner) => "array<"@ + type_text(*inner) + ">"@,
        Type::Closure(params, ret) => "Closure("@ + types_text(params@, params@.len() as int) + "): "@
            + type_text(*ret),
        Type::SelfType => "self"@,
        Type::StaticType => "static"@,
        Type::Unknown => "unknown"@,
    }
}

/// The first `k` types of `ts`, separated by `", "`.
pub open spec fn types_text(ts: Seq<Type>, k: int) -> Seq<char>
    decreases ts, k,
{
    if k <= 0 || k > ts.len() {
        Seq::empty()
    } else if k == 1 {
        type_text(ts[0])
    } else {
        types_text(ts, k - 1) + ", "@ + type_text(ts[k - 1])
    }
}

impl Type {
    /// Whether values of this type are copied (`Unknown` counts as copied, so that untyped
    /// parameters work).
    pub fn is_copy(&self) -> (r: bool)
        ensures
            r == (self is Int || self is Float || self is Bool || self is Unknown),
    {
        match self {
            Type::Int | Type::Float | Type::Bool | Type::Unknown => true,
            _ => false,
        }
    }

    /// Whether this is a reference type.
    pub fn is_ref(&self) -> (r: bool)
        ensures
            r == (self is Ref || self is RefMut),
    {
        match self {
            Type::Ref(_) | Type::RefMut(_) => true,
            _ => false,
        }
    }

    /// The referenced type, if this is a reference.
    pub fn inner_type(&self) -> (r: Option<&Type>)
        ensures
            match *self {
                Type::Ref(inner) => r == Some(&*inner),
                Type::RefMut(inner) => r == Some(&*inner),
                _ => r is None,
            },
    {
        match self {
            Type::Ref(inner) => Some(&**inner),
            Type::RefMut(inner) => Some(&**inner),
            _ => None,
        }
    }

    /// Whether this is an object type (class or interface).
    pub fn is_object(&self) -> (r: bool)
        ensures
            r == (self is Class || self is Interface),
    {
        match self {
            Type::Class(_) | Type::Interface(_) => true,
            _ => false,
        }
    }

    /// The class or interface name, if this is an object type.
    pub fn class_name(&self) -> (r: Option<&str>)
        ensures
            match *self {
                Type::Class(name) => r matches Some(s) && s@ == name@,
                Type::Interface(name) => r matches Some(s) && s@ == name@,
                _ => r is None,
            },
    {
        match self {
            Type::Class(name) => Some(name.as_str()),
            Type::Interface(name) => Some(name.as_str()),
            _ => None,
        }
    }

    /// Appends how this type is written in source text to `out`.
    pub fn write_text(&self, out: &mut String)
        ensures
            final(out)@ == old(out)@ + type_text(*self),
        decreases self,
    {
        match self {
            Type::Int => out.append("int"),
            Type::Float => out.append("float"),
            Type::Bool => out.append("bool"),
            Type::String => out.append("string"),
            Type::Void => out.append("void"),
            Type::Ref(inner) => {
                out.append("&");
                inner.write_text(out);
            },
            Type::RefMut(inner) => {
                out.append("&mut ");
                inner.write_text(out);
            },
            Type::Class(name) => out.append(name.as_str()),
            Type::Interface(name) => out.append(name.as_str()),
            Type::Nullable(inner) => {
                out.append("?");
                inner.write_text(out);
            },
            Type::Array(inner) => {
                out.append("array<");
                inner.write_text(out);
                out.append(">");
            },
            Type::Closure(params, ret) => {
                let ghost start = out@;
                out.append("Closure(");
                let n = params.len();
                let mut i: usize = 0;
                while i < n
                    invariant
                        *self == Type::Closure(*params, *ret),
                        n == params@.len(),
                        0 <= i <= n,
                        out@ == start + "Closure("@ + types_text(params@, i as int),
                    decreases n - i,
                {
                    let ghost before = out@;
                    if i > 0 {
                        out.append(", ");
                    }
                    proof {
                        assert(decreases_to!(*self => self->Closure_0));
                        assert(decreases_to!(self->Closure_0 => params@));
                        assert(decreases_to!(params@ => params@[i as int]));
                    }
                    params[i].write_text(out);
                    proof {
                        if i == 0 {
                            assert(types_text(params@, 1) == type_text(params@[0]));
                            assert(out@ =~= start + "Closure("@ + types_text(params@, 1));
                        } else {
                            assert(out@ =~= start + "Closure("@ + types_text(params@, i + 1));
                        }
                    }
                    i = i + 1;
                }
                out.append("): ");
                ret.write_text(out);
                proof {
                    assert(out@ =~= start + type_text(*self));
                }
            },
            Type::SelfType => out.append("self"),
            Type::StaticType => out.append("static"),
            Type::Unknown => out.append("unknown"),
        }
    }

    /// How this type is written in source text.
    pub fn to_string(&self) -> (r: String)
        ensures
            r@ == type_text(*self),
    {
        let mut out = String::new();
        self.write_text(&mut out);
        proof {
            assert(out@ =~= type_text(*self));
        }
        out
    }
}

/// A source span: byte offsets of the start and the end.
#[derive(Debug, Clone, Copy, PartialEq, Eq, Structural)]
pub struct Span {
    pub start: usize,
    pub end: usize,
}

impl Span {
    /// The span from `start` to `end`.
    pub fn new(start: usize, end: usize) -> (r: Self)
        ensures
            r.start == start,
            r.end == end,
    {
        Span { start, end }
    }

    /// The span from the start of this one to the end of `other`.
    pub fn merge(&self, other: Span) -> (r: Span)
        ensures
            r.start == self.start,
            r.end == other.end,
    {
        Span { start: self.start, end: other.end }
    }
}

impl Default for Span {
    fn default() -> (r: Self)
        ensures
            r.start == 0,
            r.end == 0,
    {
        Span { start: 0, end: 0 }
    }
}

/// What a `use` declaration imports.
#[derive(Debug, Clone, Copy, PartialEq, Eq, Structural)]
pub enum UseKind {
    Class,
    Function,
    Const,
}

/// A name of the form `A\B\C`, absolute when it starts with a backslash.
#[derive(Debug)]
pub struct QualifiedName {
    pub segments: Vec<String>,
    pub is_absolute: bool,
    pub span: Span,
}

impl QualifiedName {
    /// The segments of the name.
    pub open spec fn segs(&self) -> Seq<Seq<char>> {
        self.segments@.map_values(|s: String| s@)
    }

    /// A name from its segments.
    pub fn new(segments: Vec<String>, is_absolute: bool, span: Span) -> (r: Self)
        ensures
            r.segments == segments,
            r.is_absolute == is_absolute,
            r.span == span,
    {
        QualifiedName { segments, is_absolute, span }
    }

    /// A relative name of one segment.
    pub fn simple(name: String, span: Span) -> (r: Self)
        ensures
            r.segs() == seq![name@],
            !r.is_absolute,
            r.span == span,
    {
        let mut segments: Vec<String> = Vec::new();
        segments.push(name);
        let r = QualifiedName { segments, is_absolute: false, span };
        proof {
            assert(r.segs() =~= seq![name@]);
        }
        r
    }

    /// A copy of the name.
    pub fn duplicate(&self) -> (r: Self)
        ensures
            r.segs() == self.segs(),
            r.is_absolute == self.is_absolute,
            r.span == self.span,
    {
        let n = self.segments.len();
        let mut segments: Vec<String> = Vec::new();
        let mut i: usize = 0;
        while i < n
            invariant
                n == self.segments@.len(),
                0 <= i <= n,
                segments@.len() == i,
                forall|j: int| 0 <= j < i ==> #[trigger] segments@[j]@ == self.segments@[j]@,
            decreases n - i,
        {
            segments.push(self.segments[i].clone());
            i = i + 1;
        }
        let r = QualifiedName { segments, is_absolute: self.is_absolute, span: self.span };
        proof {
            assert(r.segs() =~= self.segs());
        }
        r
    }
}

/// Expressions, as far as attribute arguments use them.
#[derive(Debug)]
pub enum ExprKind {
    /// A string literal.
    StringLit(String),
}

/// An expression with its span and, once known, its type.
#[derive(Debug)]
pub struct Expr {
    pub kind: ExprKind,
    pub span: Span,
    pub ty: Option<Type>,
}

/// An argument of an attribute.
#[derive(Debug)]
pub enum AttributeArg {
    Positional(Expr),
}

/// An attribute such as `#[Intrinsic("rt_strlen")]`.
#[derive(Debug)]
pub struct Attribute {
    pub name: String,
    pub args: Vec<AttributeArg>,
    pub span: Span,
}

/// The attributes of a declaration, in source order.
#[derive(Debug)]
pub struct Attributes {
    pub items: Vec<Attribute>,
}

/// The string literal an attribute starts with, if it does.
pub open spec fn first_string_arg(a: Attribute) -> Option<Seq<char>> {
    if a.args@.len() > 0 {
        match a.args@[0] {
            AttributeArg::Positional(e) => match e.kind {
                ExprKind::StringLit(s) => Some(s@),
            },
        }
    } else {
        None
    }
}

/// `i` is the first attribute named `name`.
pub open spec fn first_named(items: Seq<Attribute>, name: Seq<char>, i: int) -> bool {
    &&& 0 <= i < items.len()
    &&& items[i].name@ == name
    &&& forall|j: int| 0 <= j < i ==> items[j].name@ != name
}

/// The runtime function an `Intrinsic` attribute names: the string argument of the
/// first attribute named `Intrinsic`.
pub open spec fn intrinsic_of(items: Seq<Attribute>) -> Option<Seq<char>> {
    if exists|i: int| first_named(items, "Intrinsic"@, i) {
        first_string_arg(items[choose|i: int| first_named(items, "Intrinsic"@, i)])
    } else {
        None
    }
}

impl Attributes {
    /// No attributes.
    pub fn new() -> (r: Self)
        ensures
            r.items@.len() == 0,
    {
        Attributes { items: Vec::new() }
    }

    /// The given attributes.
    pub fn with_items(items: Vec<Attribute>) -> (r: Self)
        ensures
            r.items == items,
    {
        Attributes { items }
    }

    /// The runtime function named by the first `Intrinsic` attribute.
    pub fn get_intrinsic(&self) -> (r: Option<&str>)
        ensures
            match intrinsic_of(self.items@) {
                Some(s) => r matches Some(t) && t@ == s,
                None => r is None,
            },
    {
        let n = self.items.len();
        let mut i: usize = 0;
        while i < n
            invariant
                n == self.items@.len(),
                0 <= i <= n,
                forall|j: int| 0 <= j < i ==> self.items@[j].name@ != "Intrinsic"@,
            decreases n - i,
        {
            let a = &self.items[i];
            if crate::text::str_eq(a.name.as_str(), "Intrinsic") {
                proof {
                    assert(first_named(self.items@, "Intrinsic"@, i as int));
                    let k = choose|k: int| first_named(self.items@, "Intrinsic"@, k);
                    assert(k == i) by {
                        if k < i {
                        } else if k > i {
                            assert(self.items@[i as int].name@ == "Intrinsic"@);
                        }
                    }
                }
                if a.args.len() > 0 {
                    match &a.args[0] {
                        AttributeArg::Positional(e) => match &e.kind {
                            ExprKind::StringLit(s) => {
                                return Some(s.as_str());
                            },
                        },
                    }
                }
                return None;
            }
            i = i + 1;
        }
        None
    }

    /// Whether there is an `Inline` attribute.
    pub fn is_inline(&self) -> (r: bool)
        ensures
            r == exists|i: int| 0 <= i < self.items@.len() && self.items@[i].name@ == "Inline"@,
    {
        let n = self.items.len();
        let mut i: usize = 0;
        while i < n
            invariant
                n == self.items@.len(),
                0 <= i <= n,
                forall|j: int| 0 <= j < i ==> self.items@[j].name@ != "Inline"@,
            decreases n - i,
        {
            if crate::text::str_eq(self.items[i].name.as_str(), "Inline") {
                return true;
            }
            i = i + 1;
        }
        false
    }
}

impl Default for Attributes {
    fn default() -> (r: Self)
        ensures
            r.items@.len() == 0,
    {
        Attributes::new()
    }
}

/// A function parameter.
#[derive(Debug)]
pub struct Param {
    pub name: String,
    pub ty: Type,
    pub is_ref: bool,
    pub span: Span,
}

/// A function declaration.
#[derive(Debug)]
pub struct Function {
    pub name: String,
    pub params: Vec<Param>,
    pub return_type: Type,
    pub attributes: Attributes,
    pub span: Span,
}

} // verus!
