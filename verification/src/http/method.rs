//! HTTP request methods.

use vstd::prelude::*;
use vstd::string::StringSliceAdditionalSpecFns;
use crate::bytes::{eq_ignore_ascii_case, eq_ignore_case, seq_lower};

verus! {

/// HTTP request method (declaration order gives the numeric code, `Get` is 0).
#[derive(Debug, Clone, Copy, PartialEq, Eq, Hash, Structural)]
pub enum Method {
    Get,
    Post,
    Put,
    Delete,
    Patch,
    Head,
    Options,
    Connect,
    Trace,
}

/// Canonical (upper-case ASCII) name of a method, as bytes.
pub open spec fn method_bytes(m: Method) -> Seq<u8> {
    match m {
        Method::Get => seq![71u8, 69, 84],  // GET
        Method::Post => seq![80u8, 79, 83, 84],  // POST
        Method::Put => seq![80u8, 85, 84],  // PUT
        Method::Delete => seq![68u8, 69, 76, 69, 84, 69],  // DELETE
        Method::Patch => seq![80u8, 65, 84, 67, 72],  // PATCH
        Method::Head => seq![72u8, 69, 65, 68],  // HEAD
        Method::Options => seq![79u8, 80, 84, 73, 79, 78, 83],  // OPTIONS
        Method::Connect => seq![67u8, 79, 78, 78, 69, 67, 84],  // CONNECT
        Method::Trace => seq![84u8, 82, 65, 67, 69],  // TRACE
    }
}

/// Canonical name of a method, as characters.
pub open spec fn method_chars(m: Method) -> Seq<char> {
    match m {
        Method::Get => "GET"@,
        Method::Post => "POST"@,
        Method::Put => "PUT"@,
        Method::Delete => "DELETE"@,
        Method::Patch => "PATCH"@,
        Method::Head => "HEAD"@,
        Method::Options => "OPTIONS"@,
        Method::Connect => "CONNECT"@,
        Method::Trace => "TRACE"@,
    }
}

/// The method whose name equals `b` ignoring ASCII case, if any.
pub open spec fn spec_method_from_bytes(b: Seq<u8>) -> Option<Method> {
    if eq_ignore_case(b, method_bytes(Method::Get)) {
        Some(Method::Get)
    } else if eq_ignore_case(b, method_bytes(Method::Put)) {
        Some(Method::Put)
    } else if eq_ignore_case(b, method_bytes(Method::Post)) {
        Some(Method::Post)
    } else if eq_ignore_case(b, method_bytes(Method::Head)) {
        Some(Method::Head)
    } else if eq_ignore_case(b, method_bytes(Method::Patch)) {
        Some(Method::Patch)
    } else if eq_ignore_case(b, method_bytes(Method::Trace)) {
        Some(Method::Trace)
    } else if eq_ignore_case(b, method_bytes(Method::Delete)) {
        Some(Method::Delete)
    } else if eq_ignore_case(b, method_bytes(Method::Options)) {
        Some(Method::Options)
    } else if eq_ignore_case(b, method_bytes(Method::Connect)) {
        Some(Method::Connect)
    } else {
        None
    }
}

proof fn lemma_len_differs(b: Seq<u8>, m: Method)
    requires
        b.len() != method_bytes(m).len(),
    ensures
        !eq_ignore_case(b, method_bytes(m)),
{
    assert(seq_lower(b).len() != seq_lower(method_bytes(m)).len());
}

impl Method {
    /// Parse a method name, ignoring ASCII case.
    pub fn from_bytes(bytes: &[u8]) -> (r: Option<Method>)
        ensures
            r == spec_method_from_bytes(bytes@),
    {
        let ghost b = bytes@;
        proof {
            if b.len() != 3 {
                lemma_len_differs(b, Method::Get);
                lemma_len_differs(b, Method::Put);
            }
            if b.len() != 4 {
                lemma_len_differs(b, Method::Post);
                lemma_len_differs(b, Method::Head);
            }
            if b.len() != 5 {
                lemma_len_differs(b, Method::Patch);
                lemma_len_differs(b, Method::Trace);
            }
            if b.len() != 6 {
                lemma_len_differs(b, Method::Delete);
            }
            if b.len() != 7 {
                lemma_len_differs(b, Method::Options);
                lemma_len_differs(b, Method::Connect);
            }
        }
        let n = bytes.len();
        if n == 3 {
            let get: [u8; 3] = [71, 69, 84];
            let put: [u8; 3] = [80, 85, 84];
            proof {
                assert(get@ =~= method_bytes(Method::Get));
                assert(put@ =~= method_bytes(Method::Put));
            }
            if eq_ignore_ascii_case(bytes, get.as_slice()) {
                Some(Method::Get)
            } else if eq_ignore_ascii_case(bytes, put.as_slice()) {
                Some(Method::Put)
            } else {
                None
            }
        } else if n == 4 {
            let post: [u8; 4] = [80, 79, 83, 84];
            let head: [u8; 4] = [72, 69, 65, 68];
            proof {
                assert(post@ =~= method_bytes(Method::Post));
                assert(head@ =~= method_bytes(Method::Head));
            }
            if eq_ignore_ascii_case(bytes, post.as_slice()) {
                Some(Method::Post)
            } else if eq_ignore_ascii_case(bytes, head.as_slice()) {
                Some(Method::Head)
            } else {
                None
            }
        } else if n == 5 {
            let patch: [u8; 5] = [80, 65, 84, 67, 72];
            let trace: [u8; 5] = [84, 82, 65, 67, 69];
            proof {
                assert(patch@ =~= method_bytes(Method::Patch));
                assert(trace@ =~= method_bytes(Method::Trace));
            }
            if eq_ignore_ascii_case(bytes, patch.as_slice()) {
                Some(Method::Patch)
            } else if eq_ignore_ascii_case(bytes, trace.as_slice()) {
                Some(Method::Trace)
            } else {
                None
            }
        } else if n == 6 {
            let delete: [u8; 6] = [68, 69, 76, 69, 84, 69];
            proof {
                assert(delete@ =~= method_bytes(Method::Delete));
            }
            if eq_ignore_ascii_case(bytes, delete.as_slice()) {
                Some(Method::Delete)
            } else {
                None
            }
        } else if n == 7 {
            let options: [u8; 7] = [79, 80, 84, 73, 79, 78, 83];
            let connect: [u8; 7] = [67, 79, 78, 78, 69, 67, 84];
            proof {
                assert(options@ =~= method_bytes(Method::Options));
                assert(connect@ =~= method_bytes(Method::Connect));
            }
            if eq_ignore_ascii_case(bytes, options.as_slice()) {
                Some(Method::Options)
            } else if eq_ignore_ascii_case(bytes, connect.as_slice()) {
                Some(Method::Connect)
            } else {
                None
            }
        } else {
            None
        }
    }

    /// Canonical upper-case name of the method.
    pub fn as_str(&self) -> (r: &'static str)
        ensures
            r@ == method_chars(*self),
            r.spec_bytes() == method_bytes(*self),
    {
        let s = match self {
            Method::Get => "GET",
            Method::Post => "POST",
            Method::Put => "PUT",
            Method::Delete => "DELETE",
            Method::Patch => "PATCH",
            Method::Head => "HEAD",
            Method::Options => "OPTIONS",
            Method::Connect => "CONNECT",
            Method::Trace => "TRACE",
        };
        proof {
            reveal_strlit("GET");
            reveal_strlit("POST");
            reveal_strlit("PUT");
            reveal_strlit("DELETE");
            reveal_strlit("PATCH");
            reveal_strlit("HEAD");
            reveal_strlit("OPTIONS");
            reveal_strlit("CONNECT");
            reveal_strlit("TRACE");
            vstd::string::is_ascii_spec_bytes(s);
            assert(vstd::string::is_ascii(s));
            assert(s.spec_bytes() =~= method_bytes(*self));
        }
        s
    }

    /// Methods that normally carry a request body: POST, PUT and PATCH.
    pub fn has_body(&self) -> (r: bool)
        ensures
            r == (*self == Method::Post || *self == Method::Put || *self == Method::Patch),
    {
        matches!(self, Method::Post | Method::Put | Method::Patch)
    }

    /// Safe methods (no side effects): GET, HEAD, OPTIONS and TRACE.
    pub fn is_safe(&self) -> (r: bool)
        ensures
            r == (*self == Method::Get || *self == Method::Head || *self == Method::Options
                || *self == Method::Trace),
    {
        matches!(self, Method::Get | Method::Head | Method::Options | Method::Trace)
    }

    /// Idempotent methods: every method but POST and PATCH.
    pub fn is_idempotent(&self) -> (r: bool)
        ensures
            r == !(*self == Method::Post || *self == Method::Patch),
    {
        !matches!(self, Method::Post | Method::Patch)
    }
}

/// Parsing the canonical name of a method, in any ASCII case, gives that method back.
pub proof fn law_method_name_roundtrip(m: Method, b: Seq<u8>)
    requires
        eq_ignore_case(b, method_bytes(m)),
    ensures
        spec_method_from_bytes(b) == Some(m),
{
    let l = seq_lower(b);
    assert(l == seq_lower(method_bytes(m)));
    let names = seq![Method::Get, Method::Put, Method::Post, Method::Head, Method::Patch,
        Method::Trace, Method::Delete, Method::Options, Method::Connect];
    assert forall|k: int| 0 <= k < names.len() && names[k] != m implies
        seq_lower(method_bytes(names[k])) != seq_lower(method_bytes(m)) by {
        let a = seq_lower(method_bytes(names[k]));
        let c = seq_lower(method_bytes(m));
        if a.len() == c.len() {
            assert(a[0] != c[0] || a[1] != c[1] || a[2] != c[2]);
        }
    }
}

} // verus!
