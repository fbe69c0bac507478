//! HTTP/1.1 request parser: every text it returns is a slice of the input buffer.

use vstd::prelude::*;
use vstd::string::StringSliceAdditionalSpecFns;
use vstd::utf8::valid_utf8;
use crate::bytes::{eq_ignore_case, index_of, index_of_from, lemma_index_of, spec_parse_usize};
use crate::http::headers::{content_length_name, Headers, MAX_NAMES};
use crate::http::method::{spec_method_from_bytes, Method};
use crate::http::request::{opt_bytes, Request};
use crate::text::str_from_utf8;

verus! {

/// Why a buffer does not hold a request.
#[derive(Debug, Clone, PartialEq, Eq, Structural)]
pub enum ParseError {
    /// More data is needed.
    Incomplete,
    InvalidMethod,
    InvalidRequestLine,
    InvalidHeader,
    HeaderNameTooLong,
    HeaderValueTooLong,
    TooManyHeaders,
    InvalidVersion,
    UriTooLong,
}

/// The description of a parse error.
pub open spec fn parse_error_text(e: ParseError) -> Seq<char> {
    match e {
        ParseError::Incomplete => "Incomplete request"@,
        ParseError::InvalidMethod => "Invalid HTTP method"@,
        ParseError::InvalidRequestLine => "Invalid request line"@,
        ParseError::InvalidHeader => "Invalid header"@,
        ParseError::HeaderNameTooLong => "Header name too long"@,
        ParseError::HeaderValueTooLong => "Header value too long"@,
        ParseError::TooManyHeaders => "Too many headers"@,
        ParseError::InvalidVersion => "Invalid HTTP version"@,
        ParseError::UriTooLong => "URI too long"@,
    }
}

impl ParseError {
    /// A short description of the error.
    pub fn message(&self) -> (r: &'static str)
        ensures
            r@ == parse_error_text(*self),
    {
        match self {
            ParseError::Incomplete => "Incomplete request",
            ParseError::InvalidMethod => "Invalid HTTP method",
            ParseError::InvalidRequestLine => "Invalid request line",
            ParseError::InvalidHeader => "Invalid header",
            ParseError::HeaderNameTooLong => "Header name too long",
            ParseError::HeaderValueTooLong => "Header value too long",
            ParseError::TooManyHeaders => "Too many headers",
            ParseError::InvalidVersion => "Invalid HTTP version",
            ParseError::UriTooLong => "URI too long",
        }
    }
}

/// Parser limits.
#[derive(Debug, Clone)]
pub struct ParserConfig {
    /// Maximum URI length (default 8192).
    pub max_uri_len: usize,
    /// Maximum header name length (default 256).
    pub max_header_name_len: usize,
    /// Maximum header value length (default 8192).
    pub max_header_value_len: usize,
    /// Maximum number of headers (default 64).
    pub max_headers: usize,
}

impl Default for ParserConfig {
    fn default() -> (r: Self)
        ensures
            r.max_uri_len == 8192,
            r.max_header_name_len == 256,
            r.max_header_value_len == 8192,
            r.max_headers == 64,
    {
        ParserConfig {
            max_uri_len: 8192,
            max_header_name_len: 256,
            max_header_value_len: 8192,
            max_headers: 64,
        }
    }
}

/// The first `\r\n` at or after `i`.
pub open spec fn crlf_from(s: Seq<u8>, i: int) -> Option<int>
    decreases s.len() - i,
{
    if i < 0 || i + 1 >= s.len() {
        None
    } else if s[i] == 13 && s[i + 1] == 10 {
        Some(i)
    } else {
        crlf_from(s, i + 1)
    }
}

/// `HTTP/`
pub open spec fn http_prefix() -> Seq<u8> {
    seq![72u8, 84, 84, 80, 47]
}

/// Method, URI and version of a request line.
pub open spec fn spec_request_line(cfg: ParserConfig, line: Seq<u8>) -> Result<
    (Method, Seq<u8>, Seq<u8>),
    ParseError,
> {
    let sp1 = index_of(line, 32);
    if sp1 >= line.len() {
        Err(ParseError::InvalidRequestLine)
    } else {
        match spec_method_from_bytes(line.subrange(0, sp1)) {
            None => Err(ParseError::InvalidMethod),
            Some(m) => {
                let rest = line.subrange(sp1 + 1, line.len() as int);
                let sp2 = index_of(rest, 32);
                if sp2 >= rest.len() {
                    Err(ParseError::InvalidRequestLine)
                } else {
                    let uri = rest.subrange(0, sp2);
                    let version = rest.subrange(sp2 + 1, rest.len() as int);
                    if uri.len() > cfg.max_uri_len {
                        Err(ParseError::UriTooLong)
                    } else if !valid_utf8(uri) {
                        Err(ParseError::InvalidRequestLine)
                    } else if !(version.len() >= 5 && version.subrange(0, 5) == http_prefix()) {
                        Err(ParseError::InvalidVersion)
                    } else if !valid_utf8(version) {
                        Err(ParseError::InvalidVersion)
                    } else {
                        Ok((m, uri, version))
                    }
                }
            },
        }
    }
}

/// First position at or after `i` that is not a space or tab.
pub open spec fn skip_blanks(line: Seq<u8>, i: int) -> int
    decreases line.len() - i,
{
    if 0 <= i < line.len() && (line[i] == 32 || line[i] == 9) {
        skip_blanks(line, i + 1)
    } else {
        i
    }
}

/// Name and value of a header line `Name: value` (blanks after the colon dropped).
pub open spec fn spec_header_line(cfg: ParserConfig, line: Seq<u8>) -> Result<
    (Seq<u8>, Seq<u8>),
    ParseError,
> {
    let colon = index_of(line, 58);
    if colon >= line.len() {
        Err(ParseError::InvalidHeader)
    } else {
        let name = line.subrange(0, colon);
        if name.len() > cfg.max_header_name_len {
            Err(ParseError::HeaderNameTooLong)
        } else if !valid_utf8(name) {
            Err(ParseError::InvalidHeader)
        } else {
            let value = line.subrange(skip_blanks(line, colon + 1), line.len() as int);
            if value.len() > cfg.max_header_value_len {
                Err(ParseError::HeaderValueTooLong)
            } else if !valid_utf8(value) {
                Err(ParseError::InvalidHeader)
            } else {
                Ok((name, value))
            }
        }
    }
}

/// Header lines from `pos` up to the blank line: the `(name, value)` pairs in order, and
/// the position after the blank line. `count` headers were read before `pos`.
pub open spec fn spec_headers(
    cfg: ParserConfig,
    buf: Seq<u8>,
    pos: int,
    count: int,
    acc: Seq<(Seq<u8>, Seq<u8>)>,
) -> Result<(Seq<(Seq<u8>, Seq<u8>)>, int), ParseError>
    decreases buf.len() - pos,
{
    if pos < 0 || pos > buf.len() {
        Err(ParseError::Incomplete)
    } else if pos + 1 < buf.len() && buf[pos] == 13 && buf[pos + 1] == 10 {
        Ok((acc, pos + 2))
    } else {
        match crlf_from(buf, pos) {
            None => Err(ParseError::Incomplete),
            Some(e) => {
                if e < pos || e + 2 > buf.len() {
                    Err(ParseError::Incomplete)
                } else {
                    let line = buf.subrange(pos, e);
                    if line.len() == 0 {
                        spec_headers(cfg, buf, e + 2, count, acc)
                    } else {
                        match spec_header_line(cfg, line) {
                            Err(err) => Err(err),
                            Ok(nv) => {
                                if count >= MAX_NAMES || count + 1 > cfg.max_headers {
                                    Err(ParseError::TooManyHeaders)
                                } else {
                                    spec_headers(cfg, buf, e + 2, count + 1, acc.push(nv))
                                }
                            },
                        }
                    }
                }
            },
        }
    }
}

/// Value of the last pair whose name is `name` (ASCII case ignored).
pub open spec fn last_value(hs: Seq<(Seq<u8>, Seq<u8>)>, name: Seq<u8>) -> Option<Seq<u8>>
    decreases hs.len(),
{
    if hs.len() == 0 {
        None
    } else if eq_ignore_case(hs.last().0, name) {
        Some(hs.last().1)
    } else {
        last_value(hs.drop_last(), name)
    }
}

/// Body length announced by the headers: `Content-Length` when it parses, else 0.
pub open spec fn spec_body_len(hs: Seq<(Seq<u8>, Seq<u8>)>) -> int {
    match last_value(hs, content_length_name()) {
        Some(v) => match spec_parse_usize(v) {
            Some(n) => n as int,
            None => 0,
        },
        None => 0,
    }
}

/// A parsed request head: method, URI, version, header pairs, and the body's byte range.
pub type SpecHead = (Method, Seq<u8>, Seq<u8>, Seq<(Seq<u8>, Seq<u8>)>, int, int);

/// What parsing `buf` gives.
pub open spec fn spec_parse(cfg: ParserConfig, buf: Seq<u8>) -> Result<SpecHead, ParseError> {
    match crlf_from(buf, 0) {
        None => Err(ParseError::Incomplete),
        Some(rl) => match spec_request_line(cfg, buf.subrange(0, rl)) {
            Err(e) => Err(e),
            Ok((m, uri, version)) => match spec_headers(cfg, buf, rl + 2, 0, Seq::empty()) {
                Err(e) => Err(e),
                Ok((hs, pos)) => {
                    let end = pos + spec_body_len(hs);
                    if end > buf.len() {
                        Err(ParseError::Incomplete)
                    } else {
                        Ok((m, uri, version, hs, pos, end))
                    }
                },
            },
        },
    }
}

/// The request matches the parsed head read from `buf`.
pub open spec fn request_matches<'a>(req: Request<'a>, buf: Seq<u8>, h: SpecHead) -> bool {
    &&& req.method == h.0
    &&& req.uri.spec_bytes() == h.1
    &&& req.version.spec_bytes() == h.2
    &&& forall|n: Seq<u8>| opt_bytes(#[trigger] req.headers.lookup(n), last_value(h.3, n))
    &&& req.body@ == buf.subrange(h.4, h.5)
    &&& req.path.spec_bytes() == crate::http::request::uri_path(h.1)
    &&& opt_bytes(req.query, crate::http::request::uri_query(h.1))
}

/// Where the header lines read end (0 when they could not be read).
pub open spec fn headers_end(r: Result<(Seq<(Seq<u8>, Seq<u8>)>, int), ParseError>) -> int {
    match r {
        Ok((_, p)) => p,
        Err(_) => 0,
    }
}

/// Where a parsed request ends (0 when it could not be parsed).
pub open spec fn parse_end(r: Result<SpecHead, ParseError>) -> int {
    match r {
        Ok(h) => h.5,
        Err(_) => 0,
    }
}

/// `a` and `b` have at least `m` bytes and agree on the first `m`.
pub open spec fn agree(a: Seq<u8>, b: Seq<u8>, m: int) -> bool {
    &&& 0 <= m <= a.len()
    &&& m <= b.len()
    &&& forall|i: int| 0 <= i < m ==> #[trigger] a[i] == b[i]
}

proof fn lemma_crlf_agree(a: Seq<u8>, b: Seq<u8>, m: int, i: int, e: int)
    requires
        crlf_from(a, i) == Some(e),
        e + 2 <= m,
        agree(a, b, m),
        0 <= i,
    ensures
        crlf_from(b, i) == Some(e),
    decreases a.len() - i,
{
    lemma_crlf_bound(a, i);
    assert(a[i] == b[i] && a[i + 1] == b[i + 1]);
    if !(a[i] == 13 && a[i + 1] == 10) {
        lemma_crlf_agree(a, b, m, i + 1, e);
    }
}

proof fn lemma_crlf_cut(a: Seq<u8>, k: int, i: int, e: int)
    requires
        crlf_from(a, i) == Some(e),
        0 <= k < e + 2,
        k <= a.len(),
        0 <= i,
    ensures
        crlf_from(a.subrange(0, k), i) is None,
    decreases a.len() - i,
{
    let b = a.subrange(0, k);
    if i + 1 < k {
        assert(b[i] == a[i] && b[i + 1] == a[i + 1]);
        if !(a[i] == 13 && a[i + 1] == 10) {
            lemma_crlf_cut(a, k, i + 1, e);
        }
    }
}

proof fn lemma_headers_agree(
    cfg: ParserConfig,
    a: Seq<u8>,
    b: Seq<u8>,
    pos: int,
    count: int,
    acc: Seq<(Seq<u8>, Seq<u8>)>,
)
    requires
        spec_headers(cfg, a, pos, count, acc) is Ok,
        agree(a, b, headers_end(spec_headers(cfg, a, pos, count, acc))),
    ensures
        spec_headers(cfg, b, pos, count, acc) == spec_headers(cfg, a, pos, count, acc),
    decreases a.len() - pos,
{
    let p = headers_end(spec_headers(cfg, a, pos, count, acc));
    if pos + 1 < a.len() && a[pos] == 13 && a[pos + 1] == 10 {
        assert(b[pos] == a[pos] && b[pos + 1] == a[pos + 1]);
    } else {
        let e = crlf_from(a, pos)->0;
        lemma_headers_bounds(cfg, a, e + 2, count, acc);
        lemma_headers_bounds(cfg, a, e + 2, count + 1, acc.push((Seq::empty(), Seq::empty())));
        lemma_headers_end(cfg, a, pos, count, acc);
        lemma_crlf_agree(a, b, p, pos, e);
        if pos + 1 < b.len() && b[pos] == 13 && b[pos + 1] == 10 {
            assert(a[pos] == b[pos] && a[pos + 1] == b[pos + 1]);
        }
        assert(b.subrange(pos, e) =~= a.subrange(pos, e));
        let line = a.subrange(pos, e);
        if line.len() == 0 {
            lemma_headers_agree(cfg, a, b, e + 2, count, acc);
        } else {
            let nv = spec_header_line(cfg, line)->Ok_0;
            lemma_headers_agree(cfg, a, b, e + 2, count + 1, acc.push(nv));
        }
    }
}

proof fn lemma_headers_bounds(
    cfg: ParserConfig,
    a: Seq<u8>,
    pos: int,
    count: int,
    acc: Seq<(Seq<u8>, Seq<u8>)>,
)
    ensures
        spec_headers(cfg, a, pos, count, acc) is Ok ==> pos + 2 <= headers_end(spec_headers(cfg, a, pos, count, acc))
            <= a.len(),
    decreases a.len() - pos,
{
    if 0 <= pos <= a.len() && !(pos + 1 < a.len() && a[pos] == 13 && a[pos + 1] == 10) {
        match crlf_from(a, pos) {
            Some(e) => {
                if pos <= e && e + 2 <= a.len() {
                    let line = a.subrange(pos, e);
                    if line.len() == 0 {
                        lemma_headers_bounds(cfg, a, e + 2, count, acc);
                    } else {
                        match spec_header_line(cfg, line) {
                            Ok(nv) => {
                                lemma_headers_bounds(cfg, a, e + 2, count + 1, acc.push(nv));
                            },
                            Err(_) => {},
                        }
                    }
                }
            },
            None => {},
        }
    }
}

proof fn lemma_headers_end(
    cfg: ParserConfig,
    a: Seq<u8>,
    pos: int,
    count: int,
    acc: Seq<(Seq<u8>, Seq<u8>)>,
)
    requires
        spec_headers(cfg, a, pos, count, acc) is Ok,
        !(pos + 1 < a.len() && a[pos] == 13 && a[pos + 1] == 10),
    ensures
        crlf_from(a, pos) matches Some(e) && pos <= e && e + 2 <= headers_end(spec_headers(cfg, a, pos, count, acc)),
{
    let e = crlf_from(a, pos)->0;
    let line = a.subrange(pos, e);
    if line.len() == 0 {
        lemma_headers_bounds(cfg, a, e + 2, count, acc);
    } else {
        let nv = spec_header_line(cfg, line)->Ok_0;
        lemma_headers_bounds(cfg, a, e + 2, count + 1, acc.push(nv));
    }
}

proof fn lemma_headers_cut(
    cfg: ParserConfig,
    a: Seq<u8>,
    k: int,
    pos: int,
    count: int,
    acc: Seq<(Seq<u8>, Seq<u8>)>,
)
    requires
        spec_headers(cfg, a, pos, count, acc) is Ok,
        0 <= k < headers_end(spec_headers(cfg, a, pos, count, acc)),
    ensures
        spec_headers(cfg, a.subrange(0, k), pos, count, acc) == Err::<(Seq<(Seq<u8>, Seq<u8>)>, int), ParseError>(
            ParseError::Incomplete,
        ),
    decreases a.len() - pos,
{
    let b = a.subrange(0, k);
    lemma_headers_bounds(cfg, a, pos, count, acc);
    if pos > k {
    } else if pos + 1 < a.len() && a[pos] == 13 && a[pos + 1] == 10 {
        assert(crlf_from(a, pos) == Some(pos));
        lemma_crlf_cut(a, k, pos, pos);
    } else {
        lemma_headers_end(cfg, a, pos, count, acc);
        let e = crlf_from(a, pos)->0;
        if pos + 1 < b.len() && b[pos] == 13 && b[pos + 1] == 10 {
            assert(a[pos] == b[pos] && a[pos + 1] == b[pos + 1]);
        }
        if k < e + 2 {
            lemma_crlf_cut(a, k, pos, e);
        } else {
            assert(agree(a, b, k));
            lemma_crlf_agree(a, b, k, pos, e);
            assert(b.subrange(pos, e) =~= a.subrange(pos, e));
            let line = a.subrange(pos, e);
            if line.len() == 0 {
                lemma_headers_cut(cfg, a, k, e + 2, count, acc);
            } else {
                let nv = spec_header_line(cfg, line)->Ok_0;
                lemma_headers_cut(cfg, a, k, e + 2, count + 1, acc.push(nv));
            }
        }
    }
}

/// A request that parses is read the same whatever bytes follow its end, and every
/// strict prefix of it reads as `Incomplete`.
pub proof fn law_parse_prefix(cfg: ParserConfig, buf: Seq<u8>, more: Seq<u8>, k: int)
    requires
        spec_parse(cfg, buf) is Ok,
    ensures
        spec_parse(cfg, buf.subrange(0, parse_end(spec_parse(cfg, buf))) + more) == spec_parse(cfg, buf),
        0 <= k < parse_end(spec_parse(cfg, buf)) ==> spec_parse(cfg, buf.subrange(0, k)) == Err::<SpecHead, ParseError>(
            ParseError::Incomplete,
        ),
{
    let h = spec_parse(cfg, buf)->Ok_0;
    let end = h.5;
    let rl = crlf_from(buf, 0)->0;
    lemma_headers_bounds(cfg, buf, rl + 2, 0, Seq::empty());
    let pos = h.4;
    assert(pos + spec_body_len(h.3) == end);
    assert(spec_body_len(h.3) >= 0);
    assert(rl + 2 <= pos <= end <= buf.len()) by {
        lemma_crlf_bound(buf, 0);
    }
    let b2 = buf.subrange(0, end) + more;
    assert(agree(buf, b2, end));
    lemma_crlf_agree(buf, b2, end, 0, rl);
    assert(b2.subrange(0, rl) =~= buf.subrange(0, rl));
    assert(agree(buf, b2, pos));
    lemma_headers_agree(cfg, buf, b2, rl + 2, 0, Seq::empty());
    if 0 <= k < end {
        let b = buf.subrange(0, k);
        if k < rl + 2 {
            lemma_crlf_cut(buf, k, 0, rl);
        } else {
            assert(agree(buf, b, k));
            lemma_crlf_agree(buf, b, k, 0, rl);
            assert(b.subrange(0, rl) =~= buf.subrange(0, rl));
            if k < pos {
                lemma_headers_cut(cfg, buf, k, rl + 2, 0, Seq::empty());
            } else {
                assert(agree(buf, b, pos));
                lemma_headers_agree(cfg, buf, b, rl + 2, 0, Seq::empty());
            }
        }
    }
}

proof fn lemma_crlf_bound(a: Seq<u8>, i: int)
    ensures
        crlf_from(a, i) matches Some(e) ==> i <= e && e + 2 <= a.len(),
    decreases a.len() - i,
{
    if !(i < 0 || i + 1 >= a.len()) && !(a[i] == 13 && a[i + 1] == 10) {
        lemma_crlf_bound(a, i + 1);
    }
}

/// Zero-copy HTTP request parser.
pub struct HttpParser {
    config: ParserConfig,
}

/// Position of the first `\r\n` in `buf`.
pub fn find_crlf(buf: &[u8]) -> (r: Option<usize>)
    ensures
        match r {
            Some(i) => crlf_from(buf@, 0) == Some(i as int),
            None => crlf_from(buf@, 0) is None,
        },
{
    find_crlf_from(buf, 0)
}

/// Position of the first `\r\n` at or after `from`.
fn find_crlf_from(buf: &[u8], from: usize) -> (r: Option<usize>)
    ensures
        match r {
            Some(i) => crlf_from(buf@, from as int) == Some(i as int),
            None => crlf_from(buf@, from as int) is None,
        },
{
    let mut i: usize = from;
    while i < buf.len() && i + 1 < buf.len()
        invariant
            from <= i,
            crlf_from(buf@, from as int) == crlf_from(buf@, i as int),
        decreases buf@.len() - i,
    {
        if buf[i] == 13 && buf[i + 1] == 10 {
            return Some(i);
        }
        i += 1;
    }
    None
}

impl HttpParser {
    /// Spec view of the configuration.
    pub closed spec fn config(&self) -> ParserConfig {
        self.config
    }

    /// A parser with the default limits.
    pub fn new() -> (r: Self)
        ensures
            r.config().max_uri_len == 8192,
            r.config().max_header_name_len == 256,
            r.config().max_header_value_len == 8192,
            r.config().max_headers == 64,
    {
        HttpParser { config: ParserConfig::default() }
    }

    /// A parser with the given limits.
    pub fn with_config(config: ParserConfig) -> (r: Self)
        ensures
            r.config() == config,
    {
        HttpParser { config }
    }

    /// Parse a request from the start of `buf`; on success also the number of bytes
    /// it takes (request line, headers, blank line and `Content-Length` bytes of body).
    pub fn parse<'a>(&self, buf: &'a [u8]) -> (r: Result<(Request<'a>, usize), ParseError>)
        ensures
            match (r, spec_parse(self.config(), buf@)) {
                (Ok((req, n)), Ok(h)) => request_matches(req, buf@, h) && n == h.5,
                (Err(e), Err(e2)) => e == e2,
                _ => false,
            },
    {
        let blen = buf.len();
        let rl = match find_crlf(buf) {
            Some(p) => p,
            None => {
                return Err(ParseError::Incomplete);
            },
        };
        proof {
            lemma_crlf_from_bounds(buf@, 0);
            assert(crlf_from(buf@, 0) == Some(rl as int));
            assert(rl + 1 < blen);
        }
        let line = vstd::slice::slice_subrange(buf, 0, rl);
        let (method, uri, version) = match self.parse_request_line(line) {
            Ok(t) => t,
            Err(e) => {
                return Err(e);
            },
        };
        let ghost rlspec = spec_request_line(self.config, line@);
        proof {
            assert(rlspec matches Ok((m2, u2, v2)) && m2 == method && u2 == uri.spec_bytes()
                && v2 == version.spec_bytes());
        }
        let (headers, pos, Ghost(hs)) = match self.parse_headers(buf, rl + 2) {
            Ok(t) => t,
            Err(e) => {
                return Err(e);
            },
        };
        let content_length = match headers.content_length() {
            Some(n) => n,
            None => 0,
        };
        proof {
            assert(opt_bytes(headers.lookup(content_length_name()), last_value(hs, content_length_name())));
            assert(content_length as int == spec_body_len(hs));
        }
        let body_end = match pos.checked_add(content_length) {
            Some(e) => e,
            None => {
                proof {
                    assert(pos + content_length > blen);
                }
                return Err(ParseError::Incomplete);
            },
        };
        if buf.len() < body_end {
            return Err(ParseError::Incomplete);
        }
        let body = vstd::slice::slice_subrange(buf, pos, body_end);
        let request = Request::new(method, uri, version, headers, body);
        Ok((request, body_end))
    }

    /// Parse a request line `METHOD URI VERSION`.
    #[verifier::rlimit(50)]
    #[verifier::spinoff_prover]
    fn parse_request_line<'a>(&self, line: &'a [u8]) -> (r: Result<(Method, &'a str, &'a str), ParseError>)
        ensures
            match (r, spec_request_line(self.config, line@)) {
                (Ok((m, u, v)), Ok((m2, u2, v2))) => m == m2 && u.spec_bytes() == u2 && v.spec_bytes() == v2,
                (Err(e), Err(e2)) => e == e2,
                _ => false,
            },
    {
        let n = line.len();
        let sp1 = index_of_from(line, 0, 32);
        proof {
            assert(line@.subrange(0, n as int) =~= line@);
        }
        if sp1 >= n {
            return Err(ParseError::InvalidRequestLine);
        }
        let method_bytes = vstd::slice::slice_subrange(line, 0, sp1);
        let method = match Method::from_bytes(method_bytes) {
            Some(m) => m,
            None => {
                return Err(ParseError::InvalidMethod);
            },
        };
        let uri_start = sp1 + 1;
        let uri_end = index_of_from(line, uri_start, 32);
        let ghost rest = line@.subrange(uri_start as int, n as int);
        if uri_end >= n {
            return Err(ParseError::InvalidRequestLine);
        }
        let uri_bytes = vstd::slice::slice_subrange(line, uri_start, uri_end);
        let version_bytes = vstd::slice::slice_subrange(line, uri_end + 1, n);
        proof {
            assert(uri_bytes@ =~= rest.subrange(0, uri_end - uri_start));
            assert(version_bytes@ =~= rest.subrange(uri_end - uri_start + 1, rest.len() as int));
        }
        if uri_bytes.len() > self.config.max_uri_len {
            return Err(ParseError::UriTooLong);
        }
        let uri = match str_from_utf8(uri_bytes) {
            Some(u) => u,
            None => {
                return Err(ParseError::InvalidRequestLine);
            },
        };
        if !(version_bytes.len() >= 5 && version_bytes[0] == 72 && version_bytes[1] == 84
            && version_bytes[2] == 84 && version_bytes[3] == 80 && version_bytes[4] == 47) {
            proof {
                if version_bytes@.len() >= 5 {
                    if version_bytes@.subrange(0, 5) == http_prefix() {
                        assert(version_bytes@[0] == version_bytes@.subrange(0, 5)[0]);
                        assert(version_bytes@[1] == version_bytes@.subrange(0, 5)[1]);
                        assert(version_bytes@[2] == version_bytes@.subrange(0, 5)[2]);
                        assert(version_bytes@[3] == version_bytes@.subrange(0, 5)[3]);
                        assert(version_bytes@[4] == version_bytes@.subrange(0, 5)[4]);
                    }
                }
            }
            return Err(ParseError::InvalidVersion);
        }
        proof {
            assert(version_bytes@.subrange(0, 5) =~= http_prefix());
        }
        let version = match str_from_utf8(version_bytes) {
            Some(v) => v,
            None => {
                return Err(ParseError::InvalidVersion);
            },
        };
        Ok((method, uri, version))
    }

    /// Parse a header line `Name: value`.
    fn parse_header<'a>(&self, line: &'a [u8]) -> (r: Result<(&'a str, &'a str), ParseError>)
        ensures
            match (r, spec_header_line(self.config, line@)) {
                (Ok((a, b)), Ok((a2, b2))) => a.spec_bytes() == a2 && b.spec_bytes() == b2,
                (Err(e), Err(e2)) => e == e2,
                _ => false,
            },
    {
        let n = line.len();
        let colon = index_of_from(line, 0, 58);
        proof {
            assert(line@.subrange(0, n as int) =~= line@);
        }
        if colon >= n {
            return Err(ParseError::InvalidHeader);
        }
        let name_bytes = vstd::slice::slice_subrange(line, 0, colon);
        if name_bytes.len() > self.config.max_header_name_len {
            return Err(ParseError::HeaderNameTooLong);
        }
        let name = match str_from_utf8(name_bytes) {
            Some(s) => s,
            None => {
                return Err(ParseError::InvalidHeader);
            },
        };
        let mut value_start = colon + 1;
        while value_start < n && (line[value_start] == 32 || line[value_start] == 9)
            invariant
                colon + 1 <= value_start <= n,
                n == line@.len(),
                skip_blanks(line@, colon + 1) == skip_blanks(line@, value_start as int),
            decreases n - value_start,
        {
            value_start += 1;
        }
        let value_bytes = vstd::slice::slice_subrange(line, value_start, n);
        if value_bytes.len() > self.config.max_header_value_len {
            return Err(ParseError::HeaderValueTooLong);
        }
        let value = match str_from_utf8(value_bytes) {
            Some(s) => s,
            None => {
                return Err(ParseError::InvalidHeader);
            },
        };
        Ok((name, value))
    }

    /// Parse the header lines from `start` through the blank line.
    fn parse_headers<'a>(&self, buf: &'a [u8], start: usize) -> (r: Result<
        (Headers<'a>, usize, Ghost<Seq<(Seq<u8>, Seq<u8>)>>),
        ParseError,
    >)
        requires
            start <= buf@.len(),
        ensures
            match (r, spec_headers(self.config, buf@, start as int, 0, Seq::empty())) {
                (Ok((h, p, g)), Ok((hs, p2))) => {
                    &&& p == p2
                    &&& g@ == hs
                    &&& forall|n: Seq<u8>| opt_bytes(#[trigger] h.lookup(n), last_value(hs, n))
                },
                (Err(e), Err(e2)) => e == e2,
                _ => false,
            },
    {
        let mut pos = start;
        let mut headers = Headers::new();
        let mut count: usize = 0;
        let ghost mut acc: Seq<(Seq<u8>, Seq<u8>)> = Seq::empty();
        loop
            invariant
                pos <= buf@.len(),
                count <= MAX_NAMES,
                headers.name_count() <= count,
                spec_headers(self.config, buf@, start as int, 0, Seq::empty())
                    == spec_headers(self.config, buf@, pos as int, count as int, acc),
                forall|n: Seq<u8>| opt_bytes(#[trigger] headers.lookup(n), last_value(acc, n)),
            decreases buf@.len() - pos,
        {
            if pos < buf.len() && buf.len() - pos > 1 && buf[pos] == 13 && buf[pos + 1] == 10 {
                return Ok((headers, pos + 2, Ghost(acc)));
            }
            let header_end = match find_crlf_from(buf, pos) {
                Some(e) => e,
                None => {
                    return Err(ParseError::Incomplete);
                },
            };
            proof {
                lemma_crlf_from_bounds(buf@, pos as int);
            }
            let line = vstd::slice::slice_subrange(buf, pos, header_end);
            if line.len() > 0 {
                let (name, value) = match self.parse_header(line) {
                    Ok(t) => t,
                    Err(e) => {
                        return Err(e);
                    },
                };
                if count >= MAX_NAMES as usize {
                    return Err(ParseError::TooManyHeaders);
                }
                headers.insert(name, value);
                proof {
                    let nv = (name.spec_bytes(), value.spec_bytes());
                    let acc2 = acc.push(nv);
                    assert forall|n: Seq<u8>| opt_bytes(#[trigger] headers.lookup(n), last_value(acc2, n)) by {
                        assert(acc2.drop_last() =~= acc);
                        assert(acc2.last() == nv);
                        if eq_ignore_case(n, name.spec_bytes()) {
                            assert(eq_ignore_case(nv.0, n));
                        } else {
                            assert(!eq_ignore_case(nv.0, n));
                        }
                    }
                    acc = acc2;
                }
                count += 1;
                if count > self.config.max_headers {
                    return Err(ParseError::TooManyHeaders);
                }
            }
            pos = header_end + 2;
        }
    }
}

/// The `\r\n` found at or after `i` lies at or after `i`, inside the sequence.
proof fn lemma_crlf_from_bounds(s: Seq<u8>, i: int)
    ensures
        crlf_from(s, i) matches Some(e) ==> i <= e && e + 1 < s.len() && s[e] == 13 && s[e + 1] == 10,
    decreases s.len() - i,
{
    if i >= 0 && i + 1 < s.len() && !(s[i] == 13 && s[i + 1] == 10) {
        lemma_crlf_from_bounds(s, i + 1);
    }
}

impl Default for HttpParser {
    fn default() -> (r: Self)
        ensures
            r.config().max_uri_len == 8192,
            r.config().max_header_name_len == 256,
            r.config().max_header_value_len == 8192,
            r.config().max_headers == 64,
    {
        HttpParser::new()
    }
}

/// Parse a request with the default limits.
pub fn parse_request(buf: &[u8]) -> (r: Result<(Request<'_>, usize), ParseError>)
    ensures
        match (r, spec_parse(default_config(), buf@)) {
            (Ok((req, n)), Ok(h)) => request_matches(req, buf@, h) && n == h.5,
            (Err(e), Err(e2)) => e == e2,
            _ => false,
        },
{
    let p = HttpParser::new();
    proof {
        assert(p.config() == default_config());
    }
    p.parse(buf)
}

/// The default limits.
pub open spec fn default_config() -> ParserConfig {
    ParserConfig {
        max_uri_len: 8192,
        max_header_name_len: 256,
        max_header_value_len: 8192,
        max_headers: 64,
    }
}

} // verus!
