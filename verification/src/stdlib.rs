//! Built-in function declarations that map to runtime intrinsics.

use vstd::prelude::*;
use crate::ast::{
    first_string_arg, Attribute, AttributeArg, Attributes, Expr, ExprKind, Function, Param, Span, Type,
};

verus! {

/// An intrinsic declaration: the function's name, the runtime function that implements
/// it, the parameter names, the parameter types and the return type.
pub type Decl = (Seq<char>, Seq<char>, Seq<Seq<char>>, Seq<Type>, Type);

/// `f` declares the intrinsic `d`: its name, parameters (by value, at an empty span) and
/// return type, and the attributes `#[Inline]` and `#[Intrinsic("runtime name")]`.
pub open spec fn declares(f: Function, d: Decl) -> bool {
    &&& f.name@ == d.0
    &&& f.params@.len() == d.2.len()
    &&& d.3.len() == d.2.len()
    &&& forall|i: int| 0 <= i < d.2.len() ==> {
        &&& (#[trigger] f.params@[i]).name@ == d.2[i]
        &&& f.params@[i].ty == d.3[i]
        &&& !f.params@[i].is_ref
        &&& f.params@[i].span.start == 0 && f.params@[i].span.end == 0
    }
    &&& f.return_type == d.4
    &&& f.span.start == 0 && f.span.end == 0
    &&& f.attributes.items@.len() == 2
    &&& f.attributes.items@[0].name@ == "Inline"@
    &&& f.attributes.items@[0].args@.len() == 0
    &&& f.attributes.items@[1].name@ == "Intrinsic"@
    &&& f.attributes.items@[1].args@.len() == 1
    &&& first_string_arg(f.attributes.items@[1]) == Some(d.1)
    &&& match f.attributes.items@[1].args@[0] {
        AttributeArg::Positional(e) => e.ty == Some(Type::String) && e.span.start == 0 && e.span.end == 0,
    }
}

/// The declaration of intrinsic `name`, implemented by runtime function `runtime_name`.
pub fn intrinsic(name: &str, runtime_name: &str, params: Vec<(&str, Type)>, return_type: Type) -> (r: Function)
    ensures
        r.name@ == name@,
        r.params@.len() == params@.len(),
        forall|i: int| 0 <= i < params@.len() ==> {
            &&& (#[trigger] r.params@[i]).name@ == params@[i].0@
            &&& r.params@[i].ty == params@[i].1
            &&& !r.params@[i].is_ref
            &&& r.params@[i].span.start == 0 && r.params@[i].span.end == 0
        },
        r.return_type == return_type,
        r.span.start == 0 && r.span.end == 0,
        r.attributes.items@.len() == 2,
        r.attributes.items@[0].name@ == "Inline"@,
        r.attributes.items@[0].args@.len() == 0,
        r.attributes.items@[1].name@ == "Intrinsic"@,
        r.attributes.items@[1].args@.len() == 1,
        first_string_arg(r.attributes.items@[1]) == Some(runtime_name@),
        match r.attributes.items@[1].args@[0] {
            AttributeArg::Positional(e) => e.ty == Some(Type::String) && e.span.start == 0 && e.span.end == 0,
        },
{
    let span = Span::new(0, 0);
    let mut args: Vec<AttributeArg> = Vec::new();
    args.push(AttributeArg::Positional(Expr {
        kind: ExprKind::StringLit(runtime_name.to_owned()),
        span,
        ty: Some(Type::String),
    }));
    let intrinsic_attr = Attribute { name: "Intrinsic".to_owned(), args, span };
    let inline_attr = Attribute { name: "Inline".to_owned(), args: Vec::new(), span };
    let mut items: Vec<Attribute> = Vec::new();
    items.push(inline_attr);
    items.push(intrinsic_attr);
    let attributes = Attributes::with_items(items);
    let ghost given = params@;
    let mut rest = params;
    let mut out: Vec<Param> = Vec::new();
    while rest.len() > 0
        invariant
            span.start == 0 && span.end == 0,
            out@.len() + rest@.len() == given.len(),
            rest@ == given.subrange(out@.len() as int, given.len() as int),
            forall|i: int| 0 <= i < out@.len() ==> {
                &&& (#[trigger] out@[i]).name@ == given[i].0@
                &&& out@[i].ty == given[i].1
                &&& !out@[i].is_ref
                &&& out@[i].span.start == 0 && out@[i].span.end == 0
            },
        decreases rest@.len(),
    {
        let (pname, ty) = rest.remove(0);
        out.push(Param { name: pname.to_owned(), ty, is_ref: false, span });
        proof {
            assert(rest@ =~= given.subrange(out@.len() as int, given.len() as int));
        }
    }
    Function { name: name.to_owned(), params: out, return_type, attributes, span }
}

/// String functions, mapped to the runtime's C-string wrappers. Declaration `i` of 17.
pub open spec fn string_decl(i: int) -> Decl {
    if i == 0 {
        ("strlen"@, "rt_cstr_len"@, seq!["s"@], seq![Type::String], Type::Int)
    } else if i == 1 {
        ("substr"@, "rt_cstr_substr"@, seq!["s"@, "start"@, "length"@], seq![Type::String, Type::Int, Type::Int], Type::String)
    } else if i == 2 {
        ("strpos"@, "rt_cstr_strpos"@, seq!["haystack"@, "needle"@], seq![Type::String, Type::String], Type::Int)
    } else if i == 3 {
        ("strtolower"@, "rt_cstr_tolower"@, seq!["s"@], seq![Type::String], Type::String)
    } else if i == 4 {
        ("strtoupper"@, "rt_cstr_toupper"@, seq!["s"@], seq![Type::String], Type::String)
    } else if i == 5 {
        ("trim"@, "rt_cstr_trim"@, seq!["s"@], seq![Type::String], Type::String)
    } else if i == 6 {
        ("ltrim"@, "rt_cstr_ltrim"@, seq!["s"@], seq![Type::String], Type::String)
    } else if i == 7 {
        ("rtrim"@, "rt_cstr_rtrim"@, seq!["s"@], seq![Type::String], Type::String)
    } else if i == 8 {
        ("str_replace"@, "rt_cstr_replace"@, seq!["search"@, "replace"@, "subject"@], seq![Type::String, Type::String, Type::String], Type::String)
    } else if i == 9 {
        ("str_contains"@, "rt_cstr_contains"@, seq!["haystack"@, "needle"@], seq![Type::String, Type::String], Type::Bool)
    } else if i == 10 {
        ("str_starts_with"@, "rt_cstr_starts_with"@, seq!["haystack"@, "needle"@], seq![Type::String, Type::String], Type::Bool)
    } else if i == 11 {
        ("str_ends_with"@, "rt_cstr_ends_with"@, seq!["haystack"@, "needle"@], seq![Type::String, Type::String], Type::Bool)
    } else if i == 12 {
        ("strcmp"@, "rt_cstr_cmp"@, seq!["s1"@, "s2"@], seq![Type::String, Type::String], Type::Int)
    } else if i == 13 {
        ("ord"@, "rt_cstr_ord"@, seq!["c"@], seq![Type::String], Type::Int)
    } else if i == 14 {
        ("chr"@, "rt_cstr_chr"@, seq!["code"@], seq![Type::Int], Type::String)
    } else if i == 15 {
        ("strrev"@, "rt_cstr_rev"@, seq!["s"@], seq![Type::String], Type::String)
    } else {
        ("str_repeat"@, "rt_cstr_repeat"@, seq!["s"@, "count"@], seq![Type::String, Type::Int], Type::String)
    }
}

/// String functions, mapped to the runtime's C-string wrappers.
fn string_functions() -> (r: Vec<Function>)
    ensures
        r@.len() == 17,
        forall|i: int| 0 <= i < 17 ==> declares(#[trigger] r@[i], string_decl(i)),
{
    let mut v: Vec<Function> = Vec::new();
    v.push(intrinsic("strlen", "rt_cstr_len", vec![("s", Type::String)], Type::Int));
    proof {
        assert(declares(v@[0], string_decl(0)));
    }
    v.push(intrinsic("substr", "rt_cstr_substr", vec![("s", Type::String), ("start", Type::Int), ("length", Type::Int)], Type::String));
    proof {
        assert(declares(v@[1], string_decl(1)));
    }
    v.push(intrinsic("strpos", "rt_cstr_strpos", vec![("haystack", Type::String), ("needle", Type::String)], Type::Int));
    proof {
        assert(declares(v@[2], string_decl(2)));
    }
    v.push(intrinsic("strtolower", "rt_cstr_tolower", vec![("s", Type::String)], Type::String));
    proof {
        assert(declares(v@[3], string_decl(3)));
    }
    v.push(intrinsic("strtoupper", "rt_cstr_toupper", vec![("s", Type::String)], Type::String));
    proof {
        assert(declares(v@[4], string_decl(4)));
    }
    v.push(intrinsic("trim", "rt_cstr_trim", vec![("s", Type::String)], Type::String));
    proof {
        assert(declares(v@[5], string_decl(5)));
    }
    v.push(intrinsic("ltrim", "rt_cstr_ltrim", vec![("s", Type::String)], Type::String));
    proof {
        assert(declares(v@[6], string_decl(6)));
    }
    v.push(intrinsic("rtrim", "rt_cstr_rtrim", vec![("s", Type::String)], Type::String));
    proof {
        assert(declares(v@[7], string_decl(7)));
    }
    v.push(intrinsic("str_replace", "rt_cstr_replace", vec![("search", Type::String), ("replace", Type::String), ("subject", Type::String)], Type::String));
    proof {
        assert(declares(v@[8], string_decl(8)));
    }
    v.push(intrinsic("str_contains", "rt_cstr_contains", vec![("haystack", Type::String), ("needle", Type::String)], Type::Bool));
    proof {
        assert(declares(v@[9], string_decl(9)));
    }
    v.push(intrinsic("str_starts_with", "rt_cstr_starts_with", vec![("haystack", Type::String), ("needle", Type::String)], Type::Bool));
    proof {
        assert(declares(v@[10], string_decl(10)));
    }
    v.push(intrinsic("str_ends_with", "rt_cstr_ends_with", vec![("haystack", Type::String), ("needle", Type::String)], Type::Bool));
    proof {
        assert(declares(v@[11], string_decl(11)));
    }
    v.push(intrinsic("strcmp", "rt_cstr_cmp", vec![("s1", Type::String), ("s2", Type::String)], Type::Int));
    proof {
        assert(declares(v@[12], string_decl(12)));
    }
    v.push(intrinsic("ord", "rt_cstr_ord", vec![("c", Type::String)], Type::Int));
    proof {
        assert(declares(v@[13], string_decl(13)));
    }
    v.push(intrinsic("chr", "rt_cstr_chr", vec![("code", Type::Int)], Type::String));
    proof {
        assert(declares(v@[14], string_decl(14)));
    }
    v.push(intrinsic("strrev", "rt_cstr_rev", vec![("s", Type::String)], Type::String));
    proof {
        assert(declares(v@[15], string_decl(15)));
    }
    v.push(intrinsic("str_repeat", "rt_cstr_repeat", vec![("s", Type::String), ("count", Type::Int)], Type::String));
    proof {
        assert(declares(v@[16], string_decl(16)));
    }
    v
}

/// Array functions. Declaration `i` of 10.
pub open spec fn array_decl(i: int) -> Decl {
    if i == 0 {
        ("count"@, "rt_count"@, seq!["arr"@], seq![Type::Array(Box::new(Type::Unknown))], Type::Int)
    } else if i == 1 {
        ("array_sum"@, "rt_array_sum"@, seq!["arr"@], seq![Type::Array(Box::new(Type::Int))], Type::Int)
    } else if i == 2 {
        ("array_product"@, "rt_array_product"@, seq!["arr"@], seq![Type::Array(Box::new(Type::Int))], Type::Int)
    } else if i == 3 {
        ("in_array"@, "rt_in_array"@, seq!["needle"@, "haystack"@], seq![Type::Unknown, Type::Array(Box::new(Type::Unknown))], Type::Bool)
    } else if i == 4 {
        ("array_key_exists"@, "rt_array_key_exists_int"@, seq!["key"@, "arr"@], seq![Type::Int, Type::Array(Box::new(Type::Unknown))], Type::Bool)
    } else if i == 5 {
        ("array_search"@, "rt_array_search"@, seq!["needle"@, "haystack"@], seq![Type::Unknown, Type::Array(Box::new(Type::Unknown))], Type::Int)
    } else if i == 6 {
        ("array_pop"@, "rt_array_pop"@, seq!["arr"@], seq![Type::Array(Box::new(Type::Unknown))], Type::Unknown)
    } else if i == 7 {
        ("array_shift"@, "rt_array_shift"@, seq!["arr"@], seq![Type::Array(Box::new(Type::Unknown))], Type::Unknown)
    } else if i == 8 {
        ("array_first"@, "rt_array_first"@, seq!["arr"@], seq![Type::Array(Box::new(Type::Unknown))], Type::Unknown)
    } else {
        ("array_last"@, "rt_array_last"@, seq!["arr"@], seq![Type::Array(Box::new(Type::Unknown))], Type::Unknown)
    }
}

/// Array functions.
fn array_functions() -> (r: Vec<Function>)
    ensures
        r@.len() == 10,
        forall|i: int| 0 <= i < 10 ==> declares(#[trigger] r@[i], array_decl(i)),
{
    let mut v: Vec<Function> = Vec::new();
    v.push(intrinsic("count", "rt_count", vec![("arr", Type::Array(Box::new(Type::Unknown)))], Type::Int));
    proof {
        assert(declares(v@[0], array_decl(0)));
    }
    v.push(intrinsic("array_sum", "rt_array_sum", vec![("arr", Type::Array(Box::new(Type::Int)))], Type::Int));
    proof {
        assert(declares(v@[1], array_decl(1)));
    }
    v.push(intrinsic("array_product", "rt_array_product", vec![("arr", Type::Array(Box::new(Type::Int)))], Type::Int));
    proof {
        assert(declares(v@[2], array_decl(2)));
    }
    v.push(intrinsic("in_array", "rt_in_array", vec![("needle", Type::Unknown), ("haystack", Type::Array(Box::new(Type::Unknown)))], Type::Bool));
    proof {
        assert(declares(v@[3], array_decl(3)));
    }
    v.push(intrinsic("array_key_exists", "rt_array_key_exists_int", vec![("key", Type::Int), ("arr", Type::Array(Box::new(Type::Unknown)))], Type::Bool));
    proof {
        assert(declares(v@[4], array_decl(4)));
    }
    v.push(intrinsic("array_search", "rt_array_search", vec![("needle", Type::Unknown), ("haystack", Type::Array(Box::new(Type::Unknown)))], Type::Int));
    proof {
        assert(declares(v@[5], array_decl(5)));
    }
    v.push(intrinsic("array_pop", "rt_array_pop", vec![("arr", Type::Array(Box::new(Type::Unknown)))], Type::Unknown));
    proof {
        assert(declares(v@[6], array_decl(6)));
    }
    v.push(intrinsic("array_shift", "rt_array_shift", vec![("arr", Type::Array(Box::new(Type::Unknown)))], Type::Unknown));
    proof {
        assert(declares(v@[7], array_decl(7)));
    }
    v.push(intrinsic("array_first", "rt_array_first", vec![("arr", Type::Array(Box::new(Type::Unknown)))], Type::Unknown));
    proof {
        assert(declares(v@[8], array_decl(8)));
    }
    v.push(intrinsic("array_last", "rt_array_last", vec![("arr", Type::Array(Box::new(Type::Unknown)))], Type::Unknown));
    proof {
        assert(declares(v@[9], array_decl(9)));
    }
    v
}

/// Math functions. Declaration `i` of 25.
pub open spec fn math_decl(i: int) -> Decl {
    if i == 0 {
        ("abs"@, "rt_abs"@, seq!["n"@], seq![Type::Int], Type::Int)
    } else if i == 1 {
        ("ceil"@, "rt_ceil"@, seq!["n"@], seq![Type::Float], Type::Float)
    } else if i == 2 {
        ("floor"@, "rt_floor"@, seq!["n"@], seq![Type::Float], Type::Float)
    } else if i == 3 {
        ("round"@, "rt_round"@, seq!["n"@], seq![Type::Float], Type::Float)
    } else if i == 4 {
        ("sqrt"@, "rt_sqrt"@, seq!["n"@], seq![Type::Float], Type::Float)
    } else if i == 5 {
        ("pow"@, "rt_pow"@, seq!["base"@, "exp"@], seq![Type::Float, Type::Float], Type::Float)
    } else if i == 6 {
        ("exp"@, "rt_exp"@, seq!["n"@], seq![Type::Float], Type::Float)
    } else if i == 7 {
        ("log"@, "rt_log"@, seq!["n"@], seq![Type::Float], Type::Float)
    } else if i == 8 {
        ("log10"@, "rt_log10"@, seq!["n"@], seq![Type::Float], Type::Float)
    } else if i == 9 {
        ("sin"@, "rt_sin"@, seq!["n"@], seq![Type::Float], Type::Float)
    } else if i == 10 {
        ("cos"@, "rt_cos"@, seq!["n"@], seq![Type::Float], Type::Float)
    } else if i == 11 {
        ("tan"@, "rt_tan"@, seq!["n"@], seq![Type::Float], Type::Float)
    } else if i == 12 {
        ("asin"@, "rt_asin"@, seq!["n"@], seq![Type::Float], Type::Float)
    } else if i == 13 {
        ("acos"@, "rt_acos"@, seq!["n"@], seq![Type::Float], Type::Float)
    } else if i == 14 {
        ("atan"@, "rt_atan"@, seq!["n"@], seq![Type::Float], Type::Float)
    } else if i == 15 {
        ("atan2"@, "rt_atan2"@, seq!["y"@, "x"@], seq![Type::Float, Type::Float], Type::Float)
    } else if i == 16 {
        ("min"@, "rt_min"@, seq!["a"@, "b"@], seq![Type::Int, Type::Int], Type::Int)
    } else if i == 17 {
        ("max"@, "rt_max"@, seq!["a"@, "b"@], seq![Type::Int, Type::Int], Type::Int)
    } else if i == 18 {
        ("rand"@, "rt_rand"@, Seq::<Seq<char>>::empty(), Seq::<Type>::empty(), Type::Int)
    } else if i == 19 {
        ("srand"@, "rt_srand"@, seq!["seed"@], seq![Type::Int], Type::Void)
    } else if i == 20 {
        ("fmod"@, "rt_fmod"@, seq!["x"@, "y"@], seq![Type::Float, Type::Float], Type::Float)
    } else if i == 21 {
        ("hypot"@, "rt_hypot"@, seq!["x"@, "y"@], seq![Type::Float, Type::Float], Type::Float)
    } else if i == 22 {
        ("is_finite"@, "rt_is_finite"@, seq!["n"@], seq![Type::Float], Type::Bool)
    } else if i == 23 {
        ("is_nan"@, "rt_is_nan"@, seq!["n"@], seq![Type::Float], Type::Bool)
    } else {
        ("is_infinite"@, "rt_is_infinite"@, seq!["n"@], seq![Type::Float], Type::Bool)
    }
}

/// Math functions.
fn math_functions() -> (r: Vec<Function>)
    ensures
        r@.len() == 25,
        forall|i: int| 0 <= i < 25 ==> declares(#[trigger] r@[i], math_decl(i)),
{
    let mut v: Vec<Function> = Vec::new();
    v.push(intrinsic("abs", "rt_abs", vec![("n", Type::Int)], Type::Int));
    proof {
        assert(declares(v@[0], math_decl(0)));
    }
    v.push(intrinsic("ceil", "rt_ceil", vec![("n", Type::Float)], Type::Float));
    proof {
        assert(declares(v@[1], math_decl(1)));
    }
    v.push(intrinsic("floor", "rt_floor", vec![("n", Type::Float)], Type::Float));
    proof {
        assert(declares(v@[2], math_decl(2)));
    }
    v.push(intrinsic("round", "rt_round", vec![("n", Type::Float)], Type::Float));
    proof {
        assert(declares(v@[3], math_decl(3)));
    }
    v.push(intrinsic("sqrt", "rt_sqrt", vec![("n", Type::Float)], Type::Float));
    proof {
        assert(declares(v@[4], math_decl(4)));
    }
    v.push(intrinsic("pow", "rt_pow", vec![("base", Type::Float), ("exp", Type::Float)], Type::Float));
    proof {
        assert(declares(v@[5], math_decl(5)));
    }
    v.push(intrinsic("exp", "rt_exp", vec![("n", Type::Float)], Type::Float));
    proof {
        assert(declares(v@[6], math_decl(6)));
    }
    v.push(intrinsic("log", "rt_log", vec![("n", Type::Float)], Type::Float));
    proof {
        assert(declares(v@[7], math_decl(7)));
    }
    v.push(intrinsic("log10", "rt_log10", vec![("n", Type::Float)], Type::Float));
    proof {
        assert(declares(v@[8], math_decl(8)));
    }
    v.push(intrinsic("sin", "rt_sin", vec![("n", Type::Float)], Type::Float));
    proof {
        assert(declares(v@[9], math_decl(9)));
    }
    v.push(intrinsic("cos", "rt_cos", vec![("n", Type::Float)], Type::Float));
    proof {
        assert(declares(v@[10], math_decl(10)));
    }
    v.push(intrinsic("tan", "rt_tan", vec![("n", Type::Float)], Type::Float));
    proof {
        assert(declares(v@[11], math_decl(11)));
    }
    v.push(intrinsic("asin", "rt_asin", vec![("n", Type::Float)], Type::Float));
    proof {
        assert(declares(v@[12], math_decl(12)));
    }
    v.push(intrinsic("acos", "rt_acos", vec![("n", Type::Float)], Type::Float));
    proof {
        assert(declares(v@[13], math_decl(13)));
    }
    v.push(intrinsic("atan", "rt_atan", vec![("n", Type::Float)], Type::Float));
    proof {
        assert(declares(v@[14], math_decl(14)));
    }
    v.push(intrinsic("atan2", "rt_atan2", vec![("y", Type::Float), ("x", Type::Float)], Type::Float));
    proof {
        assert(declares(v@[15], math_decl(15)));
    }
    v.push(intrinsic("min", "rt_min", vec![("a", Type::Int), ("b", Type::Int)], Type::Int));
    proof {
        assert(declares(v@[16], math_decl(16)));
    }
    v.push(intrinsic("max", "rt_max", vec![("a", Type::Int), ("b", Type::Int)], Type::Int));
    proof {
        assert(declares(v@[17], math_decl(17)));
    }
    v.push(intrinsic("rand", "rt_rand", Vec::new(), Type::Int));
    proof {
        assert(declares(v@[18], math_decl(18)));
    }
    v.push(intrinsic("srand", "rt_srand", vec![("seed", Type::Int)], Type::Void));
    proof {
        assert(declares(v@[19], math_decl(19)));
    }
    v.push(intrinsic("fmod", "rt_fmod", vec![("x", Type::Float), ("y", Type::Float)], Type::Float));
    proof {
        assert(declares(v@[20], math_decl(20)));
    }
    v.push(intrinsic("hypot", "rt_hypot", vec![("x", Type::Float), ("y", Type::Float)], Type::Float));
    proof {
        assert(declares(v@[21], math_decl(21)));
    }
    v.push(intrinsic("is_finite", "rt_is_finite", vec![("n", Type::Float)], Type::Bool));
    proof {
        assert(declares(v@[22], math_decl(22)));
    }
    v.push(intrinsic("is_nan", "rt_is_nan", vec![("n", Type::Float)], Type::Bool));
    proof {
        assert(declares(v@[23], math_decl(23)));
    }
    v.push(intrinsic("is_infinite", "rt_is_infinite", vec![("n", Type::Float)], Type::Bool));
    proof {
        assert(declares(v@[24], math_decl(24)));
    }
    v
}

/// Type inspection and conversion functions. Declaration `i` of 10.
pub open spec fn type_decl(i: int) -> Decl {
    if i == 0 {
        ("is_null"@, "rt_is_null"@, seq!["v"@], seq![Type::Unknown], Type::Bool)
    } else if i == 1 {
        ("is_int"@, "rt_is_int"@, seq!["v"@], seq![Type::Unknown], Type::Bool)
    } else if i == 2 {
        ("is_float"@, "rt_is_float"@, seq!["v"@], seq![Type::Unknown], Type::Bool)
    } else if i == 3 {
        ("is_string"@, "rt_is_string"@, seq!["v"@], seq![Type::Unknown], Type::Bool)
    } else if i == 4 {
        ("is_bool"@, "rt_is_bool"@, seq!["v"@], seq![Type::Unknown], Type::Bool)
    } else if i == 5 {
        ("is_array"@, "rt_is_array"@, seq!["v"@], seq![Type::Unknown], Type::Bool)
    } else if i == 6 {
        ("intval"@, "rt_intval"@, seq!["v"@], seq![Type::Unknown], Type::Int)
    } else if i == 7 {
        ("floatval"@, "rt_floatval"@, seq!["v"@], seq![Type::Unknown], Type::Float)
    } else if i == 8 {
        ("strval"@, "rt_strval"@, seq!["v"@], seq![Type::Unknown], Type::String)
    } else {
        ("boolval"@, "rt_boolval"@, seq!["v"@], seq![Type::Unknown], Type::Bool)
    }
}

/// Type inspection and conversion functions.
fn type_functions() -> (r: Vec<Function>)
    ensures
        r@.len() == 10,
        forall|i: int| 0 <= i < 10 ==> declares(#[trigger] r@[i], type_decl(i)),
{
    let mut v: Vec<Function> = Vec::new();
    v.push(intrinsic("is_null", "rt_is_null", vec![("v", Type::Unknown)], Type::Bool));
    proof {
        assert(declares(v@[0], type_decl(0)));
    }
    v.push(intrinsic("is_int", "rt_is_int", vec![("v", Type::Unknown)], Type::Bool));
    proof {
        assert(declares(v@[1], type_decl(1)));
    }
    v.push(intrinsic("is_float", "rt_is_float", vec![("v", Type::Unknown)], Type::Bool));
    proof {
        assert(declares(v@[2], type_decl(2)));
    }
    v.push(intrinsic("is_string", "rt_is_string", vec![("v", Type::Unknown)], Type::Bool));
    proof {
        assert(declares(v@[3], type_decl(3)));
    }
    v.push(intrinsic("is_bool", "rt_is_bool", vec![("v", Type::Unknown)], Type::Bool));
    proof {
        assert(declares(v@[4], type_decl(4)));
    }
    v.push(intrinsic("is_array", "rt_is_array", vec![("v", Type::Unknown)], Type::Bool));
    proof {
        assert(declares(v@[5], type_decl(5)));
    }
    v.push(intrinsic("intval", "rt_intval", vec![("v", Type::Unknown)], Type::Int));
    proof {
        assert(declares(v@[6], type_decl(6)));
    }
    v.push(intrinsic("floatval", "rt_floatval", vec![("v", Type::Unknown)], Type::Float));
    proof {
        assert(declares(v@[7], type_decl(7)));
    }
    v.push(intrinsic("strval", "rt_strval", vec![("v", Type::Unknown)], Type::String));
    proof {
        assert(declares(v@[8], type_decl(8)));
    }
    v.push(intrinsic("boolval", "rt_boolval", vec![("v", Type::Unknown)], Type::Bool));
    proof {
        assert(declares(v@[9], type_decl(9)));
    }
    v
}

/// Number of intrinsic declarations.
pub open spec fn stdlib_len() -> int {
    62
}

/// Intrinsic declaration `i`: string, array, math, then type functions.
pub open spec fn stdlib_decl(i: int) -> Decl {
    if i < 17 {
        string_decl(i)
    } else if i < 27 {
        array_decl(i - 17)
    } else if i < 52 {
        math_decl(i - 27)
    } else {
        type_decl(i - 52)
    }
}

/// All standard library function declarations: string, array, math and type functions,
/// in that order.
pub fn get_stdlib_functions() -> (r: Vec<Function>)
    ensures
        r@.len() == stdlib_len(),
        forall|i: int| 0 <= i < stdlib_len() ==> declares(#[trigger] r@[i], stdlib_decl(i)),
{
    let mut functions: Vec<Function> = Vec::new();
    let mut part = string_functions();
    let ghost before = functions@;
    let ghost added = part@;
    functions.append(&mut part);
    proof {
        assert forall|i: int| 0 <= i < 17 implies declares(#[trigger] functions@[i], stdlib_decl(i)) by {
            assert(functions@[i] == added[i - 0]);
        }
        assert forall|i: int| 0 <= i < 0 implies declares(#[trigger] functions@[i], stdlib_decl(i)) by {
            assert(functions@[i] == before[i]);
        }
    }
    let mut part = array_functions();
    let ghost before = functions@;
    let ghost added = part@;
    functions.append(&mut part);
    proof {
        assert forall|i: int| 17 <= i < 27 implies declares(#[trigger] functions@[i], stdlib_decl(i)) by {
            assert(functions@[i] == added[i - 17]);
        }
        assert forall|i: int| 0 <= i < 17 implies declares(#[trigger] functions@[i], stdlib_decl(i)) by {
            assert(functions@[i] == before[i]);
        }
    }
    let mut part = math_functions();
    let ghost before = functions@;
    let ghost added = part@;
    functions.append(&mut part);
    proof {
        assert forall|i: int| 27 <= i < 52 implies declares(#[trigger] functions@[i], stdlib_decl(i)) by {
            assert(functions@[i] == added[i - 27]);
        }
        assert forall|i: int| 0 <= i < 27 implies declares(#[trigger] functions@[i], stdlib_decl(i)) by {
            assert(functions@[i] == before[i]);
        }
    }
    let mut part = type_functions();
    let ghost before = functions@;
    let ghost added = part@;
    functions.append(&mut part);
    proof {
        assert forall|i: int| 52 <= i < 62 implies declares(#[trigger] functions@[i], stdlib_decl(i)) by {
            assert(functions@[i] == added[i - 52]);
        }
        assert forall|i: int| 0 <= i < 52 implies declares(#[trigger] functions@[i], stdlib_decl(i)) by {
            assert(functions@[i] == before[i]);
        }
    }
    functions
}

/// The runtime function a declaration maps to is the one its `Intrinsic` attribute names,
/// and every declaration is inline.
pub proof fn lemma_declared_intrinsic(f: Function, d: Decl)
    requires
        declares(f, d),
    ensures
        crate::ast::intrinsic_of(f.attributes.items@) == Some(d.1),
        exists|i: int| 0 <= i < f.attributes.items@.len() && f.attributes.items@[i].name@ == "Inline"@,
{
    let items = f.attributes.items@;
    assert("Inline"@ != "Intrinsic"@) by {
        reveal_strlit("Inline");
        reveal_strlit("Intrinsic");
        assert("Inline"@[2] != "Intrinsic"@[2]);
    }
    assert(crate::ast::first_named(items, "Intrinsic"@, 1));
    let k = choose|k: int| crate::ast::first_named(items, "Intrinsic"@, k);
    assert(k == 1);
    assert(items[0].name@ == "Inline"@);
}

} // verus!
