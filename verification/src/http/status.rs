//! HTTP status codes.

use vstd::prelude::*;
use vstd::string::StringSliceAdditionalSpecFns;
use crate::decimal::{digit_chars, push_decimal};
use crate::text::ascii_bytes;

verus! {

/// An HTTP status code.
#[derive(Debug, Clone, Copy, PartialEq, Eq, Hash, Structural)]
pub struct StatusCode(pub u16);

/// Reason phrase of a status code ("Unknown" for codes without one).
pub open spec fn reason_chars(code: u16) -> Seq<char> {
    match code {
        100 => "Continue"@,
        101 => "Switching Protocols"@,
        200 => "OK"@,
        201 => "Created"@,
        202 => "Accepted"@,
        204 => "No Content"@,
        301 => "Moved Permanently"@,
        302 => "Found"@,
        303 => "See Other"@,
        304 => "Not Modified"@,
        307 => "Temporary Redirect"@,
        308 => "Permanent Redirect"@,
        400 => "Bad Request"@,
        401 => "Unauthorized"@,
        403 => "Forbidden"@,
        404 => "Not Found"@,
        405 => "Method Not Allowed"@,
        406 => "Not Acceptable"@,
        409 => "Conflict"@,
        410 => "Gone"@,
        411 => "Length Required"@,
        413 => "Payload Too Large"@,
        414 => "URI Too Long"@,
        415 => "Unsupported Media Type"@,
        422 => "Unprocessable Entity"@,
        429 => "Too Many Requests"@,
        500 => "Internal Server Error"@,
        501 => "Not Implemented"@,
        502 => "Bad Gateway"@,
        503 => "Service Unavailable"@,
        504 => "Gateway Timeout"@,
        _ => "Unknown"@,
    }
}

/// Reason phrase of a status code, as bytes.
pub open spec fn reason_bytes(code: u16) -> Seq<u8> {
    ascii_bytes(reason_chars(code))
}

#[allow(non_snake_case)]
impl StatusCode {
    /// 100 Continue
    pub fn CONTINUE() -> (r: Self)
        ensures
            r.0 == 100,
    {
        StatusCode(100)
    }

    /// 101 Switching Protocols
    pub fn SWITCHING_PROTOCOLS() -> (r: Self)
        ensures
            r.0 == 101,
    {
        StatusCode(101)
    }

    /// 200 OK
    pub fn OK() -> (r: Self)
        ensures
            r.0 == 200,
    {
        StatusCode(200)
    }

    /// 201 Created
    pub fn CREATED() -> (r: Self)
        ensures
            r.0 == 201,
    {
        StatusCode(201)
    }

    /// 202 Accepted
    pub fn ACCEPTED() -> (r: Self)
        ensures
            r.0 == 202,
    {
        StatusCode(202)
    }

    /// 204 No Content
    pub fn NO_CONTENT() -> (r: Self)
        ensures
            r.0 == 204,
    {
        StatusCode(204)
    }

    /// 301 Moved Permanently
    pub fn MOVED_PERMANENTLY() -> (r: Self)
        ensures
            r.0 == 301,
    {
        StatusCode(301)
    }

    /// 302 Found
    pub fn FOUND() -> (r: Self)
        ensures
            r.0 == 302,
    {
        StatusCode(302)
    }

    /// 303 See Other
    pub fn SEE_OTHER() -> (r: Self)
        ensures
            r.0 == 303,
    {
        StatusCode(303)
    }

    /// 304 Not Modified
    pub fn NOT_MODIFIED() -> (r: Self)
        ensures
            r.0 == 304,
    {
        StatusCode(304)
    }

    /// 307 Temporary Redirect
    pub fn TEMPORARY_REDIRECT() -> (r: Self)
        ensures
            r.0 == 307,
    {
        StatusCode(307)
    }

    /// 308 Permanent Redirect
    pub fn PERMANENT_REDIRECT() -> (r: Self)
        ensures
            r.0 == 308,
    {
        StatusCode(308)
    }

    /// 400 Bad Request
    pub fn BAD_REQUEST() -> (r: Self)
        ensures
            r.0 == 400,
    {
        StatusCode(400)
    }

    /// 401 Unauthorized
    pub fn UNAUTHORIZED() -> (r: Self)
        ensures
            r.0 == 401,
    {
        StatusCode(401)
    }

    /// 403 Forbidden
    pub fn FORBIDDEN() -> (r: Self)
        ensures
            r.0 == 403,
    {
        StatusCode(403)
    }

    /// 404 Not Found
    pub fn NOT_FOUND() -> (r: Self)
        ensures
            r.0 == 404,
    {
        StatusCode(404)
    }

    /// 405 Method Not Allowed
    pub fn METHOD_NOT_ALLOWED() -> (r: Self)
        ensures
            r.0 == 405,
    {
        StatusCode(405)
    }

    /// 406 Not Acceptable
    pub fn NOT_ACCEPTABLE() -> (r: Self)
        ensures
            r.0 == 406,
    {
        StatusCode(406)
    }

    /// 409 Conflict
    pub fn CONFLICT() -> (r: Self)
        ensures
            r.0 == 409,
    {
        StatusCode(409)
    }

    /// 410 Gone
    pub fn GONE() -> (r: Self)
        ensures
            r.0 == 410,
    {
        StatusCode(410)
    }

    /// 411 Length Required
    pub fn LENGTH_REQUIRED() -> (r: Self)
        ensures
            r.0 == 411,
    {
        StatusCode(411)
    }

    /// 413 Payload Too Large
    pub fn PAYLOAD_TOO_LARGE() -> (r: Self)
        ensures
            r.0 == 413,
    {
        StatusCode(413)
    }

    /// 414 URI Too Long
    pub fn URI_TOO_LONG() -> (r: Self)
        ensures
            r.0 == 414,
    {
        StatusCode(414)
    }

    /// 415 Unsupported Media Type
    pub fn UNSUPPORTED_MEDIA_TYPE() -> (r: Self)
        ensures
            r.0 == 415,
    {
        StatusCode(415)
    }

    /// 422 Unprocessable Entity
    pub fn UNPROCESSABLE_ENTITY() -> (r: Self)
        ensures
            r.0 == 422,
    {
        StatusCode(422)
    }

    /// 429 Too Many Requests
    pub fn TOO_MANY_REQUESTS() -> (r: Self)
        ensures
            r.0 == 429,
    {
        StatusCode(429)
    }

    /// 500 Internal Server Error
    pub fn INTERNAL_SERVER_ERROR() -> (r: Self)
        ensures
            r.0 == 500,
    {
        StatusCode(500)
    }

    /// 501 Not Implemented
    pub fn NOT_IMPLEMENTED() -> (r: Self)
        ensures
            r.0 == 501,
    {
        StatusCode(501)
    }

    /// 502 Bad Gateway
    pub fn BAD_GATEWAY() -> (r: Self)
        ensures
            r.0 == 502,
    {
        StatusCode(502)
    }

    /// 503 Service Unavailable
    pub fn SERVICE_UNAVAILABLE() -> (r: Self)
        ensures
            r.0 == 503,
    {
        StatusCode(503)
    }

    /// 504 Gateway Timeout
    pub fn GATEWAY_TIMEOUT() -> (r: Self)
        ensures
            r.0 == 504,
    {
        StatusCode(504)
    }

    /// Create a status code from its number.
    pub fn new(code: u16) -> (r: Self)
        ensures
            r.0 == code,
    {
        StatusCode(code)
    }

    /// The numeric code.
    pub fn code(&self) -> (r: u16)
        ensures
            r == self.0,
    {
        self.0
    }

    /// The reason phrase.
    pub fn reason(&self) -> (r: &'static str)
        ensures
            r@ == reason_chars(self.0),
            r.spec_bytes() == reason_bytes(self.0),
    {
        let s = match self.0 {
            100 => "Continue",
            101 => "Switching Protocols",
            200 => "OK",
            201 => "Created",
            202 => "Accepted",
            204 => "No Content",
            301 => "Moved Permanently",
            302 => "Found",
            303 => "See Other",
            304 => "Not Modified",
            307 => "Temporary Redirect",
            308 => "Permanent Redirect",
            400 => "Bad Request",
            401 => "Unauthorized",
            403 => "Forbidden",
            404 => "Not Found",
            405 => "Method Not Allowed",
            406 => "Not Acceptable",
            409 => "Conflict",
            410 => "Gone",
            411 => "Length Required",
            413 => "Payload Too Large",
            414 => "URI Too Long",
            415 => "Unsupported Media Type",
            422 => "Unprocessable Entity",
            429 => "Too Many Requests",
            500 => "Internal Server Error",
            501 => "Not Implemented",
            502 => "Bad Gateway",
            503 => "Service Unavailable",
            504 => "Gateway Timeout",
            _ => "Unknown",
        };
        proof {
            reveal_strlit("Continue");
            reveal_strlit("Switching Protocols");
            reveal_strlit("OK");
            reveal_strlit("Created");
            reveal_strlit("Accepted");
            reveal_strlit("No Content");
            reveal_strlit("Moved Permanently");
            reveal_strlit("Found");
            reveal_strlit("See Other");
            reveal_strlit("Not Modified");
            reveal_strlit("Temporary Redirect");
            reveal_strlit("Permanent Redirect");
            reveal_strlit("Bad Request");
            reveal_strlit("Unauthorized");
            reveal_strlit("Forbidden");
            reveal_strlit("Not Found");
            reveal_strlit("Method Not Allowed");
            reveal_strlit("Not Acceptable");
            reveal_strlit("Conflict");
            reveal_strlit("Gone");
            reveal_strlit("Length Required");
            reveal_strlit("Payload Too Large");
            reveal_strlit("URI Too Long");
            reveal_strlit("Unsupported Media Type");
            reveal_strlit("Unprocessable Entity");
            reveal_strlit("Too Many Requests");
            reveal_strlit("Internal Server Error");
            reveal_strlit("Not Implemented");
            reveal_strlit("Bad Gateway");
            reveal_strlit("Service Unavailable");
            reveal_strlit("Gateway Timeout");
            reveal_strlit("Unknown");
            vstd::string::is_ascii_spec_bytes(s);
            assert(vstd::string::is_ascii(s));
            assert(s.spec_bytes() =~= reason_bytes(self.0));
        }
        s
    }

    /// The code and its reason phrase, as in a status line: `200 OK`.
    pub fn to_string(&self) -> (r: String)
        ensures
            r@ == digit_chars(self.0 as nat) + " "@ + reason_chars(self.0),
    {
        let mut out = String::new();
        push_decimal(&mut out, self.0 as usize);
        out.append(" ");
        out.append(self.reason());
        out
    }

    /// 1xx
    pub fn is_informational(&self) -> (r: bool)
        ensures
            r == in_class(self.0, 1),
    {
        self.0 >= 100 && self.0 < 200
    }

    /// 2xx
    pub fn is_success(&self) -> (r: bool)
        ensures
            r == in_class(self.0, 2),
    {
        self.0 >= 200 && self.0 < 300
    }

    /// 3xx
    pub fn is_redirection(&self) -> (r: bool)
        ensures
            r == in_class(self.0, 3),
    {
        self.0 >= 300 && self.0 < 400
    }

    /// 4xx
    pub fn is_client_error(&self) -> (r: bool)
        ensures
            r == in_class(self.0, 4),
    {
        self.0 >= 400 && self.0 < 500
    }

    /// 5xx
    pub fn is_server_error(&self) -> (r: bool)
        ensures
            r == in_class(self.0, 5),
    {
        self.0 >= 500 && self.0 < 600
    }

    /// 4xx or 5xx.
    pub fn is_error(&self) -> (r: bool)
        ensures
            r == is_error_code(self.0),
    {
        self.0 >= 400 && self.0 < 600
    }
}

/// The code is in class `c`: from `c` hundred up to the next hundred.
pub open spec fn in_class(code: u16, c: int) -> bool {
    100 * c <= code < 100 * (c + 1)
}

/// An error code: client error (4xx) or server error (5xx).
pub open spec fn is_error_code(code: u16) -> bool {
    code >= 400 && code < 600
}

/// A code is an error exactly when it is a client or a server error, and it is in at most
/// one of the classes 1xx to 5xx; in particular no success is an error.
pub proof fn law_status_classes(s: StatusCode)
    ensures
        is_error_code(s.0) <==> (in_class(s.0, 4) || in_class(s.0, 5)),
        forall|a: int, b: int| 1 <= a < b <= 5 ==> !(#[trigger] in_class(s.0, a) && #[trigger] in_class(s.0, b)),
        in_class(s.0, 2) ==> !is_error_code(s.0),
{
}

} // verus!
