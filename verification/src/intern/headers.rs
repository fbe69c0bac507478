//! Ids of the well-known HTTP header names.

use vstd::prelude::*;
use super::InternId;

verus! {

/// Id of the `Accept` header.
#[allow(non_snake_case)]
pub fn Accept() -> (r: InternId)
    ensures
        r.0 == 1,
{
    InternId(1)
}

/// Id of the `Accept-Charset` header.
#[allow(non_snake_case)]
pub fn AcceptCharset() -> (r: InternId)
    ensures
        r.0 == 2,
{
    InternId(2)
}

/// Id of the `Accept-Encoding` header.
#[allow(non_snake_case)]
pub fn AcceptEncoding() -> (r: InternId)
    ensures
        r.0 == 3,
{
    InternId(3)
}

/// Id of the `Accept-Language` header.
#[allow(non_snake_case)]
pub fn AcceptLanguage() -> (r: InternId)
    ensures
        r.0 == 4,
{
    InternId(4)
}

/// Id of the `Authorization` header.
#[allow(non_snake_case)]
pub fn Authorization() -> (r: InternId)
    ensures
        r.0 == 5,
{
    InternId(5)
}

/// Id of the `Cache-Control` header.
#[allow(non_snake_case)]
pub fn CacheControl() -> (r: InternId)
    ensures
        r.0 == 6,
{
    InternId(6)
}

/// Id of the `Connection` header.
#[allow(non_snake_case)]
pub fn Connection() -> (r: InternId)
    ensures
        r.0 == 7,
{
    InternId(7)
}

/// Id of the `Content-Length` header.
#[allow(non_snake_case)]
pub fn ContentLength() -> (r: InternId)
    ensures
        r.0 == 8,
{
    InternId(8)
}

/// Id of the `Content-Type` header.
#[allow(non_snake_case)]
pub fn ContentType() -> (r: InternId)
    ensures
        r.0 == 9,
{
    InternId(9)
}

/// Id of the `Cookie` header.
#[allow(non_snake_case)]
pub fn Cookie() -> (r: InternId)
    ensures
        r.0 == 10,
{
    InternId(10)
}

/// Id of the `Host` header.
#[allow(non_snake_case)]
pub fn Host() -> (r: InternId)
    ensures
        r.0 == 11,
{
    InternId(11)
}

/// Id of the `If-Modified-Since` header.
#[allow(non_snake_case)]
pub fn IfModifiedSince() -> (r: InternId)
    ensures
        r.0 == 12,
{
    InternId(12)
}

/// Id of the `If-None-Match` header.
#[allow(non_snake_case)]
pub fn IfNoneMatch() -> (r: InternId)
    ensures
        r.0 == 13,
{
    InternId(13)
}

/// Id of the `Origin` header.
#[allow(non_snake_case)]
pub fn Origin() -> (r: InternId)
    ensures
        r.0 == 14,
{
    InternId(14)
}

/// Id of the `Referer` header.
#[allow(non_snake_case)]
pub fn Referer() -> (r: InternId)
    ensures
        r.0 == 15,
{
    InternId(15)
}

/// Id of the `User-Agent` header.
#[allow(non_snake_case)]
pub fn UserAgent() -> (r: InternId)
    ensures
        r.0 == 16,
{
    InternId(16)
}

/// Id of the `X-Forwarded-For` header.
#[allow(non_snake_case)]
pub fn XForwardedFor() -> (r: InternId)
    ensures
        r.0 == 17,
{
    InternId(17)
}

/// Id of the `X-Requested-With` header.
#[allow(non_snake_case)]
pub fn XRequestedWith() -> (r: InternId)
    ensures
        r.0 == 18,
{
    InternId(18)
}

/// Id of the `Access-Control-Allow-Origin` header.
#[allow(non_snake_case)]
pub fn AccessControlAllowOrigin() -> (r: InternId)
    ensures
        r.0 == 19,
{
    InternId(19)
}

/// Id of the `Access-Control-Allow-Methods` header.
#[allow(non_snake_case)]
pub fn AccessControlAllowMethods() -> (r: InternId)
    ensures
        r.0 == 20,
{
    InternId(20)
}

/// Id of the `Access-Control-Allow-Headers` header.
#[allow(non_snake_case)]
pub fn AccessControlAllowHeaders() -> (r: InternId)
    ensures
        r.0 == 21,
{
    InternId(21)
}

/// Id of the `Content-Disposition` header.
#[allow(non_snake_case)]
pub fn ContentDisposition() -> (r: InternId)
    ensures
        r.0 == 22,
{
    InternId(22)
}

/// Id of the `Content-Encoding` header.
#[allow(non_snake_case)]
pub fn ContentEncoding() -> (r: InternId)
    ensures
        r.0 == 23,
{
    InternId(23)
}

/// Id of the `Date` header.
#[allow(non_snake_case)]
pub fn Date() -> (r: InternId)
    ensures
        r.0 == 24,
{
    InternId(24)
}

/// Id of the `ETag` header.
#[allow(non_snake_case)]
pub fn ETag() -> (r: InternId)
    ensures
        r.0 == 25,
{
    InternId(25)
}

/// Id of the `Expires` header.
#[allow(non_snake_case)]
pub fn Expires() -> (r: InternId)
    ensures
        r.0 == 26,
{
    InternId(26)
}

/// Id of the `Last-Modified` header.
#[allow(non_snake_case)]
pub fn LastModified() -> (r: InternId)
    ensures
        r.0 == 27,
{
    InternId(27)
}

/// Id of the `Location` header.
#[allow(non_snake_case)]
pub fn Location() -> (r: InternId)
    ensures
        r.0 == 28,
{
    InternId(28)
}

/// Id of the `Server` header.
#[allow(non_snake_case)]
pub fn Server() -> (r: InternId)
    ensures
        r.0 == 29,
{
    InternId(29)
}

/// Id of the `Set-Cookie` header.
#[allow(non_snake_case)]
pub fn SetCookie() -> (r: InternId)
    ensures
        r.0 == 30,
{
    InternId(30)
}

/// Id of the `Transfer-Encoding` header.
#[allow(non_snake_case)]
pub fn TransferEncoding() -> (r: InternId)
    ensures
        r.0 == 31,
{
    InternId(31)
}

/// Id of the `Vary` header.
#[allow(non_snake_case)]
pub fn Vary() -> (r: InternId)
    ensures
        r.0 == 32,
{
    InternId(32)
}

/// Id of the `WWW-Authenticate` header.
#[allow(non_snake_case)]
pub fn WWWAuthenticate() -> (r: InternId)
    ensures
        r.0 == 33,
{
    InternId(33)
}

/// Id of the `X-Content-Type-Options` header.
#[allow(non_snake_case)]
pub fn XContentTypeOptions() -> (r: InternId)
    ensures
        r.0 == 34,
{
    InternId(34)
}

/// Id of the `X-Frame-Options` header.
#[allow(non_snake_case)]
pub fn XFrameOptions() -> (r: InternId)
    ensures
        r.0 == 35,
{
    InternId(35)
}

/// Id of the `X-XSS-Protection` header.
#[allow(non_snake_case)]
pub fn XXSSProtection() -> (r: InternId)
    ensures
        r.0 == 36,
{
    InternId(36)
}

} // verus!
