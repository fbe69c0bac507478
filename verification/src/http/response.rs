//! HTTP responses and their HTTP/1.1 wire format.

use vstd::prelude::*;
use vstd::string::StringSliceAdditionalSpecFns;
use crate::bytes::{decimal, push_all};
use crate::decimal::itoa_u64;
use crate::http::status::{reason_bytes, StatusCode};
use crate::string::SmartString;
use crate::text::{ascii_bytes, lemma_ascii_str};

verus! {

/// An HTTP response.
#[derive(Debug, Clone)]
pub struct Response {
    pub status: StatusCode,
    /// Headers as `(name, value)` pairs, in the order they were added.
    pub headers: Vec<(SmartString, SmartString)>,
    pub body: Vec<u8>,
}

/// Header pairs as bytes.
pub open spec fn header_pairs(hs: Seq<(SmartString, SmartString)>) -> Seq<(Seq<u8>, Seq<u8>)> {
    hs.map_values(|p: (SmartString, SmartString)| (p.0.spec_bytes(), p.1.spec_bytes()))
}

/// `Name: value\r\n` for each pair, in order.
pub open spec fn header_lines(hs: Seq<(Seq<u8>, Seq<u8>)>) -> Seq<u8>
    decreases hs.len(),
{
    if hs.len() == 0 {
        Seq::empty()
    } else {
        header_lines(hs.drop_last()) + hs.last().0 + ascii_bytes(": "@) + hs.last().1
            + ascii_bytes("\r\n"@)
    }
}

/// `HTTP/1.1 <code> <reason>\r\n`
pub open spec fn status_line(code: u16) -> Seq<u8> {
    ascii_bytes("HTTP/1.1 "@) + decimal(code as nat) + ascii_bytes(" "@) + reason_bytes(code)
        + ascii_bytes("\r\n"@)
}

/// `Content-Length: <n>\r\n` for a non-empty body, nothing otherwise.
pub open spec fn content_length_line(n: nat) -> Seq<u8> {
    if n > 0 {
        ascii_bytes("Content-Length: "@) + decimal(n) + ascii_bytes("\r\n"@)
    } else {
        Seq::empty()
    }
}

/// The HTTP/1.1 serialization of a response.
pub open spec fn spec_response_bytes(code: u16, hs: Seq<(Seq<u8>, Seq<u8>)>, body: Seq<u8>) -> Seq<u8> {
    status_line(code) + header_lines(hs) + content_length_line(body.len()) + ascii_bytes("\r\n"@)
        + body
}

/// Append the bytes of a string slice.
fn push_str_bytes(buf: &mut Vec<u8>, s: &str)
    ensures
        final(buf)@ == old(buf)@ + s.spec_bytes(),
{
    push_all(buf, s.as_bytes());
}

/// Append the decimal digits of `n`.
pub fn write_u16(buf: &mut Vec<u8>, n: u16)
    ensures
        final(buf)@ == old(buf)@ + decimal(n as nat),
{
    proof {
        reveal_with_fuel(decimal, 4);
    }
    if n < 10 {
        buf.push(48 + n as u8);
    } else if n < 100 {
        buf.push(48 + (n / 10) as u8);
        buf.push(48 + (n % 10) as u8);
    } else if n < 1000 {
        buf.push(48 + (n / 100) as u8);
        buf.push(48 + ((n / 10) % 10) as u8);
        buf.push(48 + (n % 10) as u8);
        proof {
            assert((n / 10) / 10 == n / 100);
        }
    } else {
        let digits = itoa_u64(n as u64);
        push_all(buf, digits.as_slice());
    }
    proof {
        assert(buf@ =~= old(buf)@ + decimal(n as nat));
    }
}

/// Append the decimal digits of `n`.
fn write_usize(buf: &mut Vec<u8>, n: usize)
    ensures
        final(buf)@ == old(buf)@ + decimal(n as nat),
{
    let digits = itoa_u64(n as u64);
    push_all(buf, digits.as_slice());
}

impl Response {
    /// Header pairs as bytes.
    pub open spec fn spec_headers(&self) -> Seq<(Seq<u8>, Seq<u8>)> {
        header_pairs(self.headers@)
    }

    /// A response with the given status, no headers and an empty body.
    pub fn new(status: StatusCode) -> (r: Self)
        ensures
            r.status == status,
            r.headers@.len() == 0,
            r.body@.len() == 0,
    {
        Response { status, headers: Vec::with_capacity(8), body: Vec::new() }
    }

    /// 200 OK
    pub fn ok() -> (r: Self)
        ensures
            r.status.0 == 200,
            r.headers@.len() == 0,
            r.body@.len() == 0,
    {
        Self::new(StatusCode::OK())
    }

    /// 201 Created
    pub fn created() -> (r: Self)
        ensures
            r.status.0 == 201,
            r.headers@.len() == 0,
            r.body@.len() == 0,
    {
        Self::new(StatusCode::CREATED())
    }

    /// 204 No Content
    pub fn no_content() -> (r: Self)
        ensures
            r.status.0 == 204,
            r.headers@.len() == 0,
            r.body@.len() == 0,
    {
        Self::new(StatusCode::NO_CONTENT())
    }

    /// 400 Bad Request
    pub fn bad_request() -> (r: Self)
        ensures
            r.status.0 == 400,
            r.headers@.len() == 0,
            r.body@.len() == 0,
    {
        Self::new(StatusCode::BAD_REQUEST())
    }

    /// 401 Unauthorized
    pub fn unauthorized() -> (r: Self)
        ensures
            r.status.0 == 401,
            r.headers@.len() == 0,
            r.body@.len() == 0,
    {
        Self::new(StatusCode::UNAUTHORIZED())
    }

    /// 403 Forbidden
    pub fn forbidden() -> (r: Self)
        ensures
            r.status.0 == 403,
            r.headers@.len() == 0,
            r.body@.len() == 0,
    {
        Self::new(StatusCode::FORBIDDEN())
    }

    /// 404 Not Found
    pub fn not_found() -> (r: Self)
        ensures
            r.status.0 == 404,
            r.headers@.len() == 0,
            r.body@.len() == 0,
    {
        Self::new(StatusCode::NOT_FOUND())
    }

    /// 500 Internal Server Error
    pub fn internal_error() -> (r: Self)
        ensures
            r.status.0 == 500,
            r.headers@.len() == 0,
            r.body@.len() == 0,
    {
        Self::new(StatusCode::INTERNAL_SERVER_ERROR())
    }

    /// Replace the status.
    pub fn status(self, status: StatusCode) -> (r: Self)
        ensures
            r.status == status,
            r.spec_headers() == self.spec_headers(),
            r.body@ == self.body@,
    {
        let mut s = self;
        s.status = status;
        s
    }

    /// Add a header after the existing ones.
    pub fn header(self, name: &str, value: &str) -> (r: Self)
        ensures
            r.status == self.status,
            r.spec_headers() == self.spec_headers().push((name.spec_bytes(), value.spec_bytes())),
            r.body@ == self.body@,
    {
        let mut s = self;
        s.headers.push((SmartString::from_str(name), SmartString::from_str(value)));
        proof {
            assert(s.spec_headers() =~= self.spec_headers().push((name.spec_bytes(), value.spec_bytes())));
        }
        s
    }

    /// Add a `Content-Type` header.
    pub fn content_type(self, ct: &str) -> (r: Self)
        ensures
            r.status == self.status,
            r.spec_headers() == self.spec_headers().push((ascii_bytes("Content-Type"@), ct.spec_bytes())),
            r.body@ == self.body@,
    {
        let name = "Content-Type";
        proof {
            reveal_strlit("Content-Type");
            lemma_ascii_str(name);
        }
        self.header(name, ct)
    }

    /// Replace the body.
    pub fn body(self, body: Vec<u8>) -> (r: Self)
        ensures
            r.status == self.status,
            r.spec_headers() == self.spec_headers(),
            r.body@ == body@,
    {
        let mut s = self;
        s.body = body;
        s
    }

    /// Replace the body with the bytes of a string.
    pub fn body_str(self, body: &str) -> (r: Self)
        ensures
            r.status == self.status,
            r.spec_headers() == self.spec_headers(),
            r.body@ == body.spec_bytes(),
    {
        let b = vstd::slice::slice_to_vec(body.as_bytes());
        self.body(b)
    }

    /// JSON body with `Content-Type: application/json`.
    pub fn json(self, body: &str) -> (r: Self)
        ensures
            r.status == self.status,
            r.spec_headers() == self.spec_headers().push(
                (ascii_bytes("Content-Type"@), ascii_bytes("application/json"@)),
            ),
            r.body@ == body.spec_bytes(),
    {
        let ct = "application/json";
        proof {
            reveal_strlit("application/json");
            lemma_ascii_str(ct);
        }
        self.content_type(ct).body_str(body)
    }

    /// HTML body with `Content-Type: text/html; charset=utf-8`.
    pub fn html(self, body: &str) -> (r: Self)
        ensures
            r.status == self.status,
            r.spec_headers() == self.spec_headers().push(
                (ascii_bytes("Content-Type"@), ascii_bytes("text/html; charset=utf-8"@)),
            ),
            r.body@ == body.spec_bytes(),
    {
        let ct = "text/html; charset=utf-8";
        proof {
            reveal_strlit("text/html; charset=utf-8");
            lemma_ascii_str(ct);
        }
        self.content_type(ct).body_str(body)
    }

    /// Plain text body with `Content-Type: text/plain; charset=utf-8`.
    pub fn text(self, body: &str) -> (r: Self)
        ensures
            r.status == self.status,
            r.spec_headers() == self.spec_headers().push(
                (ascii_bytes("Content-Type"@), ascii_bytes("text/plain; charset=utf-8"@)),
            ),
            r.body@ == body.spec_bytes(),
    {
        let ct = "text/plain; charset=utf-8";
        proof {
            reveal_strlit("text/plain; charset=utf-8");
            lemma_ascii_str(ct);
        }
        self.content_type(ct).body_str(body)
    }

    /// Body length in bytes.
    pub fn body_len(&self) -> (r: usize)
        ensures
            r == self.body@.len(),
    {
        self.body.len()
    }

    /// The body.
    pub fn body_bytes(&self) -> (r: &[u8])
        ensures
            r@ == self.body@,
    {
        self.body.as_slice()
    }

    /// Append the HTTP/1.1 serialization to `buf`.
    fn write_bytes(&self, buf: &mut Vec<u8>)
        ensures
            final(buf)@ == old(buf)@ + spec_response_bytes(self.status.0, self.spec_headers(), self.body@),
    {
        let ghost start = buf@;
        let http = "HTTP/1.1 ";
        let sp = " ";
        let crlf = "\r\n";
        let colon = ": ";
        let cl = "Content-Length: ";
        proof {
            reveal_strlit("HTTP/1.1 ");
            reveal_strlit(" ");
            reveal_strlit("\r\n");
            reveal_strlit(": ");
            reveal_strlit("Content-Length: ");
            lemma_ascii_str(http);
            lemma_ascii_str(sp);
            lemma_ascii_str(crlf);
            lemma_ascii_str(colon);
            lemma_ascii_str(cl);
        }
        push_str_bytes(buf, http);
        write_u16(buf, self.status.code());
        push_str_bytes(buf, sp);
        push_str_bytes(buf, self.status.reason());
        push_str_bytes(buf, crlf);
        proof {
            assert(buf@ =~= start + status_line(self.status.0));
        }
        let ghost hs = self.spec_headers();
        let mut i: usize = 0;
        while i < self.headers.len()
            invariant
                i <= self.headers@.len(),
                hs == self.spec_headers(),
                http.spec_bytes() == ascii_bytes("HTTP/1.1 "@),
                crlf.spec_bytes() == ascii_bytes("\r\n"@),
                colon.spec_bytes() == ascii_bytes(": "@),
                buf@ == start + status_line(self.status.0) + header_lines(hs.take(i as int)),
            decreases self.headers@.len() - i,
        {
            let (name, value) = &self.headers[i];
            push_all(buf, name.as_bytes());
            push_str_bytes(buf, colon);
            push_all(buf, value.as_bytes());
            push_str_bytes(buf, crlf);
            proof {
                assert(hs.take(i + 1).drop_last() =~= hs.take(i as int));
                assert(hs[i as int] == (name.spec_bytes(), value.spec_bytes()));
                assert(buf@ =~= start + status_line(self.status.0) + header_lines(hs.take(i + 1)));
            }
            i += 1;
        }
        proof {
            assert(hs.take(self.headers@.len() as int) =~= hs);
        }
        let ghost before_cl = buf@;
        if self.body.len() > 0 {
            push_str_bytes(buf, cl);
            write_usize(buf, self.body.len());
            push_str_bytes(buf, crlf);
        }
        proof {
            assert(buf@ =~= before_cl + content_length_line(self.body@.len()));
        }
        push_str_bytes(buf, crlf);
        push_all(buf, self.body.as_slice());
        proof {
            assert(buf@ =~= start + spec_response_bytes(self.status.0, hs, self.body@));
        }
    }

    /// The HTTP/1.1 serialization: status line, headers, `Content-Length` for a non-empty
    /// body, blank line, body.
    pub fn to_bytes(&self) -> (r: Vec<u8>)
        ensures
            r@ == spec_response_bytes(self.status.0, self.spec_headers(), self.body@),
    {
        let mut buf: Vec<u8> = Vec::with_capacity(256);
        self.write_bytes(&mut buf);
        proof {
            assert(buf@ =~= spec_response_bytes(self.status.0, self.spec_headers(), self.body@));
        }
        buf
    }

    /// Replace the contents of `buf` with the HTTP/1.1 serialization.
    pub fn write_to(&self, buf: &mut Vec<u8>)
        ensures
            final(buf)@ == spec_response_bytes(self.status.0, self.spec_headers(), self.body@),
    {
        buf.clear();
        self.write_bytes(buf);
        proof {
            assert(buf@ =~= spec_response_bytes(self.status.0, self.spec_headers(), self.body@));
        }
    }
}

impl Default for Response {
    fn default() -> (r: Self)
        ensures
            r.status.0 == 200,
            r.headers@.len() == 0,
            r.body@.len() == 0,
    {
        Response::ok()
    }
}

} // verus!
