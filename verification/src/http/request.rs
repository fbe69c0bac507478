//! HTTP requests: every text field is a slice of the buffer the request was parsed from.

use vstd::prelude::*;
use vstd::string::StringSliceAdditionalSpecFns;
use vstd::utf8::valid_utf8;
use crate::bytes::{index_of, index_of_from, lemma_index_of, range_eq};
use crate::http::headers::{
    close_token, connection_name, content_length_name, content_type_name, Headers,
};
use crate::http::method::Method;
use crate::bytes::{eq_ignore_case, spec_parse_usize};
use crate::text::{
    ascii_bytes, lemma_ascii_splittable, lemma_ascii_str, lemma_str_valid, str_from_utf8, substr,
};
use crate::http::method::method_bytes;
use crate::http::response::{content_length_line, header_lines};
use crate::bytes::push_all;
use crate::decimal::usize_to_string_bytes;
use vstd::string::StringExecFns;
use vstd::utf8::encode_utf8;

verus! {

/// Path part of a URI: the bytes before the first `?`.
pub open spec fn uri_path(u: Seq<u8>) -> Seq<u8> {
    u.subrange(0, index_of(u, 63))
}

/// Query part of a URI: the bytes after the first `?`, when there are any.
pub open spec fn uri_query(u: Seq<u8>) -> Option<Seq<u8>> {
    let p = index_of(u, 63);
    if p + 1 < u.len() {
        Some(u.subrange(p + 1, u.len() as int))
    } else {
        None
    }
}

/// Value of `name` in one `key=value` (or bare `key`) query pair.
pub open spec fn pair_value(pair: Seq<u8>, name: Seq<u8>) -> Option<Seq<u8>> {
    let e = index_of(pair, 61);
    if e < pair.len() {
        if pair.subrange(0, e) == name {
            Some(pair.subrange(e + 1, pair.len() as int))
        } else {
            None
        }
    } else if pair == name {
        Some(Seq::empty())
    } else {
        None
    }
}

/// Value of the first `&`-separated pair of the query `q` that names `name`.
pub open spec fn spec_query_param(q: Seq<u8>, name: Seq<u8>) -> Option<Seq<u8>>
    decreases q.len(),
{
    let end = index_of(q, 38);
    let found = pair_value(q.subrange(0, end), name);
    if found is Some {
        found
    } else if end < q.len() {
        proof {
            lemma_index_of(q, 38);
        }
        spec_query_param(q.subrange(end + 1, q.len() as int), name)
    } else {
        None
    }
}

/// A query pair answers for `name` exactly when it is `name=value` or the bare `name`
/// (for a name without `=`): its key must equal the name, not merely begin with it, and
/// the value is all that follows the first `=`.
pub proof fn law_pair_value(pair: Seq<u8>, name: Seq<u8>, v: Seq<u8>)
    ensures
        pair_value(pair, name) == Some(v) ==> pair == name + seq![61u8] + v || (v.len() == 0 && pair == name),
        !name.contains(61u8) ==> pair_value(name + seq![61u8] + v, name) == Some(v),
        !name.contains(61u8) ==> pair_value(name, name) == Some(Seq::<u8>::empty()),
{
    lemma_index_of(pair, 61);
    let e = index_of(pair, 61);
    if pair_value(pair, name) == Some(v) && e < pair.len() {
        assert(pair =~= pair.subrange(0, e) + seq![61u8] + pair.subrange(e + 1, pair.len() as int));
    }
    if !name.contains(61u8) {
        let p2 = name + seq![61u8] + v;
        assert forall|j: int| 0 <= j < name.len() implies p2[j] != 61 by {
            if p2[j] == 61 {
                assert(name[j] == 61);
                assert(name.contains(61u8));
            }
        }
        assert(p2[name.len() as int] == 61);
        crate::bytes::lemma_index_of_unique(p2, 61, name.len() as int);
        assert(p2.subrange(0, name.len() as int) =~= name);
        assert(p2.subrange(name.len() + 1int, p2.len() as int) =~= v);
        assert forall|j: int| 0 <= j < name.len() implies name[j] != 61 by {
            if name[j] == 61 {
                assert(name.contains(61u8));
            }
        }
        crate::bytes::lemma_index_of_unique(name, 61, name.len() as int);
    }
}

/// A query parameter found for `name` comes from a pair of the query: one that starts
/// the query or follows a `&`, and reads `name=value` or the bare `name`.
pub proof fn law_query_param(q: Seq<u8>, name: Seq<u8>, v: Seq<u8>)
    ensures
        spec_query_param(q, name) == Some(v) ==> exists|i: int, j: int|
            0 <= i <= j <= q.len() && (i == 0 || q[i - 1] == 38) && (j == q.len() || q[j] == 38)
                && (q.subrange(i, j) == name + seq![61u8] + v || (v.len() == 0 && q.subrange(i, j) == name)),
    decreases q.len(),
{
    if spec_query_param(q, name) == Some(v) {
        lemma_index_of(q, 38);
        let end = index_of(q, 38);
        let pair = q.subrange(0, end);
        law_pair_value(pair, name, v);
        if pair_value(pair, name) is Some {
            assert(0 <= 0int <= end <= q.len() && (end == q.len() || q[end] == 38));
        } else {
            let rest = q.subrange(end + 1, q.len() as int);
            law_query_param(rest, name, v);
            let (i2, j2) = choose|i: int, j: int|
                0 <= i <= j <= rest.len() && (i == 0 || rest[i - 1] == 38) && (j == rest.len() || rest[j] == 38)
                    && (rest.subrange(i, j) == name + seq![61u8] + v || (v.len() == 0 && rest.subrange(i, j) == name));
            let i = i2 + end + 1;
            let j = j2 + end + 1;
            assert(q.subrange(i, j) =~= rest.subrange(i2, j2));
            if i2 > 0 {
                assert(q[i - 1] == rest[i2 - 1]);
            }
            if j2 < rest.len() {
                assert(q[j] == rest[j2]);
            }
        }
    }
}

/// The first pair that names a parameter gives its value, whatever follows it.
pub proof fn law_first_pair_wins(name: Seq<u8>, v: Seq<u8>, rest: Seq<u8>)
    requires
        !name.contains(61u8),
        !name.contains(38u8),
        !v.contains(38u8),
    ensures
        spec_query_param(name + seq![61u8] + v + seq![38u8] + rest, name) == Some(v),
{
    let pair = name + seq![61u8] + v;
    let q = pair + seq![38u8] + rest;
    assert forall|j: int| 0 <= j < pair.len() implies q[j] != 38 by {
        assert(q[j] == pair[j]);
        if j < name.len() {
            assert(pair[j] == name[j]);
            if name[j] == 38 {
                assert(name.contains(38u8));
            }
        } else if j > name.len() {
            assert(pair[j] == v[j - name.len() - 1]);
            if v[j - name.len() - 1] == 38 {
                assert(v.contains(38u8));
            }
        }
    }
    assert(q[pair.len() as int] == 38);
    crate::bytes::lemma_index_of_unique(q, 38, pair.len() as int);
    assert(q.subrange(0, pair.len() as int) =~= pair);
    law_pair_value(pair, name, v);
}

/// An HTTP request.
#[derive(Debug)]
pub struct Request<'a> {
    pub method: Method,
    /// Path (URI before `?`).
    pub path: &'a str,
    /// Query string (URI after `?`), when not empty.
    pub query: Option<&'a str>,
    /// Protocol version, e.g. `HTTP/1.1`.
    pub version: &'a str,
    pub headers: Headers<'a>,
    pub body: &'a [u8],
    /// Raw URI (path and query).
    pub uri: &'a str,
}

/// The optional string slice has the optional bytes.
pub open spec fn opt_bytes<'a>(s: Option<&'a str>, b: Option<Seq<u8>>) -> bool {
    match s {
        Some(x) => b == Some(x.spec_bytes()),
        None => b is None,
    }
}

impl<'a> Request<'a> {
    /// A request; the URI is split into path and query.
    pub fn new(
        method: Method,
        uri: &'a str,
        version: &'a str,
        headers: Headers<'a>,
        body: &'a [u8],
    ) -> (r: Self)
        ensures
            r.method == method,
            r.uri == uri,
            r.version == version,
            r.headers == headers,
            r.body == body,
            r.path.spec_bytes() == uri_path(uri.spec_bytes()),
            opt_bytes(r.query, uri_query(uri.spec_bytes())),
    {
        let (path, query) = Self::split_uri(uri);
        Request { method, path, query, version, headers, body, uri }
    }

    /// Split a URI at its first `?` into path and (non-empty) query.
    pub fn split_uri(uri: &'a str) -> (r: (&'a str, Option<&'a str>))
        ensures
            r.0.spec_bytes() == uri_path(uri.spec_bytes()),
            opt_bytes(r.1, uri_query(uri.spec_bytes())),
    {
        let b = uri.as_bytes();
        let n = b.len();
        let p = index_of_from(b, 0, 63);
        proof {
            lemma_str_valid(uri);
            assert(b@.subrange(0, b@.len() as int) =~= b@);
            lemma_index_of(b@, 63);
        }
        if p < n {
            proof {
                lemma_ascii_splittable(b@, p as int);
            }
            let path = substr(uri, 0, p);
            let query = if p + 1 < n {
                Some(substr(uri, p + 1, n))
            } else {
                None
            };
            (path, query)
        } else {
            proof {
                assert(b@.subrange(0, p as int) =~= b@);
            }
            (uri, None)
        }
    }

    /// The `Content-Length` header as a number.
    pub fn content_length(&self) -> (r: Option<usize>)
        ensures
            r == (match self.headers.lookup(content_length_name()) {
                Some(v) => spec_parse_usize(v.spec_bytes()),
                None => None,
            }),
    {
        self.headers.content_length()
    }

    /// The `Content-Type` header.
    pub fn content_type(&self) -> (r: Option<&'a str>)
        ensures
            r == self.headers.lookup(content_type_name()),
    {
        self.headers.content_type()
    }

    /// Whether the client wants the connection kept open.
    pub fn is_keep_alive(&self) -> (r: bool)
        ensures
            r == (match self.headers.lookup(connection_name()) {
                Some(v) => !eq_ignore_case(v.spec_bytes(), close_token()),
                None => true,
            }),
    {
        self.headers.is_keep_alive()
    }

    /// The body as text, when it is valid UTF-8.
    pub fn body_str(&self) -> (r: Option<&'a str>)
        ensures
            r is Some <==> valid_utf8(self.body@),
            r matches Some(s) ==> s.spec_bytes() == self.body@,
    {
        str_from_utf8(self.body)
    }

    /// Whether the method is GET.
    pub fn is_get(&self) -> (r: bool)
        ensures
            r == (self.method == Method::Get),
    {
        self.method == Method::Get
    }

    /// Whether the method is POST.
    pub fn is_post(&self) -> (r: bool)
        ensures
            r == (self.method == Method::Post),
    {
        self.method == Method::Post
    }

    /// Value of query parameter `name` (`""` for a bare `name`); the first pair that
    /// names it wins.
    pub fn query_param(&self, name: &str) -> (r: Option<&'a str>)
        ensures
            r matches Some(v) ==> self.query matches Some(q)
                && spec_query_param(q.spec_bytes(), name.spec_bytes()) == Some(v.spec_bytes()),
            r is None ==> (self.query is None || (self.query matches Some(q)
                && spec_query_param(q.spec_bytes(), name.spec_bytes()) is None)),
    {
        let query = match self.query {
            Some(q) => q,
            None => {
                return None;
            },
        };
        let qb = query.as_bytes();
        let nb = name.as_bytes();
        let n = qb.len();
        let ghost q = qb@;
        proof {
            lemma_str_valid(query);
            assert(q.subrange(0, n as int) =~= q);
        }
        let mut start: usize = 0;
        loop
            invariant
                start <= n,
                self.query == Some(query),
                nb@ == name.spec_bytes(),
                n == q.len(),
                qb@ == q,
                q == query.spec_bytes(),
                valid_utf8(q),
                start == 0 || q[start - 1] == 38,
                spec_query_param(q, nb@) == spec_query_param(q.subrange(start as int, n as int), nb@),
            decreases n - start,
        {
            let ghost rest = q.subrange(start as int, n as int);
            let end = index_of_from(qb, start, 38);
            proof {
                lemma_index_of(rest, 38);
                assert(rest.subrange(0, end - start) =~= q.subrange(start as int, end as int));
                if start > 0 {
                    lemma_ascii_splittable(q, start - 1);
                } else {
                    crate::text::lemma_splittable_zero(q);
                }
                if end < n {
                    lemma_ascii_splittable(q, end as int);
                }
            }
            let pair = vstd::slice::slice_subrange(qb, start, end);
            proof {
                assert(index_of(rest, 38) == end - start);
            }
            let e = index_of_from(pair, 0, 61);
            proof {
                assert(pair@.subrange(0, pair@.len() as int) =~= pair@);
                lemma_index_of(pair@, 61);
                assert(pair@ == q.subrange(start as int, end as int));
            }
            if e < pair.len() {
                if range_eq(pair, 0, e, nb) {
                    proof {
                        assert(q[start + e] == 61);
                        lemma_ascii_splittable(q, start + e);
                        assert(pair@.subrange(e + 1, pair@.len() as int) =~= q.subrange(start + e + 1, end as int));
                        assert(pair_value(pair@, nb@) == Some(q.subrange(start + e + 1, end as int)));
                        assert(spec_query_param(rest, nb@) == Some(q.subrange(start + e + 1, end as int)));
                    }
                    return Some(substr(query, start + e + 1, end));
                }
            } else if range_eq(pair, 0, pair.len(), nb) {
                let empty = "";
                proof {
                    reveal_strlit("");
                    assert(pair@.subrange(0, pair@.len() as int) =~= pair@);
                    assert(empty@ =~= Seq::<char>::empty());
                    assert(empty.spec_bytes() =~= Seq::<u8>::empty());
                    assert(pair_value(pair@, nb@) == Some(Seq::<u8>::empty()));
                    assert(spec_query_param(rest, nb@) == Some(Seq::<u8>::empty()));
                }
                return Some(empty);
            }
            proof {
                assert(pair_value(pair@, nb@) is None);
            }
            if end >= n {
                return None;
            }
            proof {
                assert(rest.subrange(end - start + 1, rest.len() as int) =~= q.subrange(end + 1, n as int));
            }
            start = end + 1;
        }
    }

    /// Value of header `name` (ASCII case ignored).
    pub fn header(&self, name: &str) -> (r: Option<&'a str>)
        ensures
            r == self.headers.lookup(name.spec_bytes()),
    {
        self.headers.get(name)
    }
}

/// The UTF-8 bytes of a `String`.
pub open spec fn string_bytes(s: String) -> Seq<u8> {
    encode_utf8(s@)
}

/// The raw request a builder produces: request line (`/` for an empty URI), headers,
/// `Content-Length` for a non-empty body, blank line, body.
pub open spec fn spec_build_bytes(
    m: Method,
    uri: Seq<u8>,
    hs: Seq<(Seq<u8>, Seq<u8>)>,
    body: Seq<u8>,
) -> Seq<u8> {
    method_bytes(m) + ascii_bytes(" "@) + (if uri.len() == 0 { ascii_bytes("/"@) } else { uri })
        + ascii_bytes(" HTTP/1.1\r\n"@) + header_lines(hs) + content_length_line(body.len())
        + ascii_bytes("\r\n"@) + body
}

/// Builder of raw HTTP requests (for tests and clients).
#[derive(Debug)]
pub struct RequestBuilder {
    method: Option<Method>,
    uri: String,
    headers: Vec<(String, String)>,
    body: Vec<u8>,
}

impl RequestBuilder {
    /// The method set so far.
    pub closed spec fn spec_method(&self) -> Option<Method> {
        self.method
    }

    /// The URI, as bytes.
    pub closed spec fn spec_uri(&self) -> Seq<u8> {
        string_bytes(self.uri)
    }

    /// The headers, as byte pairs.
    pub closed spec fn spec_headers(&self) -> Seq<(Seq<u8>, Seq<u8>)> {
        self.headers@.map_values(|p: (String, String)| (string_bytes(p.0), string_bytes(p.1)))
    }

    /// The body.
    pub closed spec fn spec_body(&self) -> Seq<u8> {
        self.body@
    }

    /// An empty builder (GET `/` when built).
    pub fn new() -> (r: Self)
        ensures
            r.spec_method() is None,
            r.spec_uri().len() == 0,
            r.spec_headers().len() == 0,
            r.spec_body().len() == 0,
    {
        let r = RequestBuilder {
            method: None,
            uri: String::new(),
            headers: Vec::new(),
            body: Vec::new(),
        };
        proof {
            assert(r.spec_headers() =~= Seq::<(Seq<u8>, Seq<u8>)>::empty());
        }
        r
    }

    /// Set the method.
    pub fn method(self, method: Method) -> (r: Self)
        ensures
            r.spec_method() == Some(method),
            r.spec_uri() == self.spec_uri(),
            r.spec_headers() == self.spec_headers(),
            r.spec_body() == self.spec_body(),
    {
        let mut s = self;
        s.method = Some(method);
        s
    }

    /// GET `uri`.
    pub fn get(self, uri: &str) -> (r: Self)
        ensures
            r.spec_method() == Some(Method::Get),
            r.spec_uri() == uri.spec_bytes(),
            r.spec_headers() == self.spec_headers(),
            r.spec_body() == self.spec_body(),
    {
        self.method(Method::Get).uri(uri)
    }

    /// POST `uri`.
    pub fn post(self, uri: &str) -> (r: Self)
        ensures
            r.spec_method() == Some(Method::Post),
            r.spec_uri() == uri.spec_bytes(),
            r.spec_headers() == self.spec_headers(),
            r.spec_body() == self.spec_body(),
    {
        self.method(Method::Post).uri(uri)
    }

    /// Set the URI.
    pub fn uri(self, uri: &str) -> (r: Self)
        ensures
            r.spec_method() == self.spec_method(),
            r.spec_uri() == uri.spec_bytes(),
            r.spec_headers() == self.spec_headers(),
            r.spec_body() == self.spec_body(),
    {
        let mut s = self;
        s.uri = uri.to_owned();
        s
    }

    /// Add a header after the existing ones.
    pub fn header(self, name: &str, value: &str) -> (r: Self)
        ensures
            r.spec_method() == self.spec_method(),
            r.spec_uri() == self.spec_uri(),
            r.spec_headers() == self.spec_headers().push((name.spec_bytes(), value.spec_bytes())),
            r.spec_body() == self.spec_body(),
    {
        let mut s = self;
        s.headers.push((name.to_owned(), value.to_owned()));
        proof {
            assert(s.spec_headers() =~= self.spec_headers().push((name.spec_bytes(), value.spec_bytes())));
        }
        s
    }

    /// Set the body.
    pub fn body(self, body: Vec<u8>) -> (r: Self)
        ensures
            r.spec_method() == self.spec_method(),
            r.spec_uri() == self.spec_uri(),
            r.spec_headers() == self.spec_headers(),
            r.spec_body() == body@,
    {
        let mut s = self;
        s.body = body;
        s
    }

    /// JSON body with `Content-Type: application/json`.
    pub fn json(self, body: &str) -> (r: Self)
        ensures
            r.spec_method() == self.spec_method(),
            r.spec_uri() == self.spec_uri(),
            r.spec_headers() == self.spec_headers().push(
                (ascii_bytes("Content-Type"@), ascii_bytes("application/json"@)),
            ),
            r.spec_body() == body.spec_bytes(),
    {
        let name = "Content-Type";
        let ct = "application/json";
        proof {
            reveal_strlit("Content-Type");
            reveal_strlit("application/json");
            lemma_ascii_str(name);
            lemma_ascii_str(ct);
        }
        let b = vstd::slice::slice_to_vec(body.as_bytes());
        self.header(name, ct).body(b)
    }

    /// The raw request bytes (method GET when none was set).
    pub fn build_bytes(&self) -> (r: Vec<u8>)
        ensures
            r@ == spec_build_bytes(
                match self.spec_method() {
                    Some(m) => m,
                    None => Method::Get,
                },
                self.spec_uri(),
                self.spec_headers(),
                self.spec_body(),
            ),
    {
        let method = match self.method {
            Some(m) => m,
            None => Method::Get,
        };
        let mut buf: Vec<u8> = Vec::with_capacity(256);
        let sp = " ";
        let slash = "/";
        let version = " HTTP/1.1\r\n";
        let crlf = "\r\n";
        let colon = ": ";
        let cl = "Content-Length: ";
        proof {
            reveal_strlit(" ");
            reveal_strlit("/");
            reveal_strlit(" HTTP/1.1\r\n");
            reveal_strlit("\r\n");
            reveal_strlit(": ");
            reveal_strlit("Content-Length: ");
            lemma_ascii_str(sp);
            lemma_ascii_str(slash);
            lemma_ascii_str(version);
            lemma_ascii_str(crlf);
            lemma_ascii_str(colon);
            lemma_ascii_str(cl);
        }
        push_all(&mut buf, method.as_str().as_bytes());
        push_all(&mut buf, sp.as_bytes());
        let uri = self.uri.as_str();
        if uri.as_bytes().len() == 0 {
            push_all(&mut buf, slash.as_bytes());
        } else {
            push_all(&mut buf, uri.as_bytes());
        }
        push_all(&mut buf, version.as_bytes());
        let ghost start = buf@;
        let ghost hs = self.spec_headers();
        let mut i: usize = 0;
        while i < self.headers.len()
            invariant
                i <= self.headers@.len(),
                hs == self.spec_headers(),
                crlf.spec_bytes() == ascii_bytes("\r\n"@),
                colon.spec_bytes() == ascii_bytes(": "@),
                buf@ == start + header_lines(hs.take(i as int)),
            decreases self.headers@.len() - i,
        {
            let (name, value) = &self.headers[i];
            push_all(&mut buf, name.as_str().as_bytes());
            push_all(&mut buf, colon.as_bytes());
            push_all(&mut buf, value.as_str().as_bytes());
            push_all(&mut buf, crlf.as_bytes());
            proof {
                assert(hs.take(i + 1).drop_last() =~= hs.take(i as int));
                assert(hs[i as int] == (string_bytes(*name), string_bytes(*value)));
                assert(buf@ =~= start + header_lines(hs.take(i + 1)));
            }
            i += 1;
        }
        proof {
            assert(hs.take(self.headers@.len() as int) =~= hs);
        }
        let ghost before_cl = buf@;
        if self.body.len() > 0 {
            push_all(&mut buf, cl.as_bytes());
            let digits = usize_to_string_bytes(self.body.len());
            push_all(&mut buf, digits.as_slice());
            push_all(&mut buf, crlf.as_bytes());
        }
        proof {
            assert(buf@ =~= before_cl + content_length_line(self.body@.len()));
        }
        push_all(&mut buf, crlf.as_bytes());
        push_all(&mut buf, self.body.as_slice());
        proof {
            assert(buf@ =~= spec_build_bytes(method, self.spec_uri(), hs, self.body@));
        }
        buf
    }
}

impl Default for RequestBuilder {
    fn default() -> (r: Self)
        ensures
            r.spec_method() is None,
            r.spec_uri().len() == 0,
            r.spec_headers().len() == 0,
            r.spec_body().len() == 0,
    {
        RequestBuilder::new()
    }
}

} // verus!
