//! Interned strings: small integer ids standing for strings, so that names compare in O(1).
//!
//! Ids 1 to 36 stand for well-known HTTP header names; ids from 100 on are handed out by
//! a [`StringInterner`].

use vstd::prelude::*;
use vstd::string::StringSliceAdditionalSpecFns;
use crate::bytes::{bytes_eq, seq_lower, to_lower_vec};
use crate::text::ascii_bytes;
use crate::text::lemma_str_bytes_eq;

pub mod headers;

verus! {

/// An interned string id.
#[derive(Debug, Clone, Copy, PartialEq, Eq, Hash, Structural)]
pub struct InternId(pub u32);

/// The first id handed out for dynamically interned strings.
pub const DYNAMIC_START: u32 = 100;

/// Number of well-known header names (ids 1 to 36).
pub const KNOWN_HEADERS: u32 = 36;

/// Lower-case name of the well-known header with table index `k` (id `k + 1`).
pub open spec fn header_key_chars(k: u32) -> Seq<char> {
    match k {
        0 => "accept"@,
        1 => "accept-charset"@,
        2 => "accept-encoding"@,
        3 => "accept-language"@,
        4 => "authorization"@,
        5 => "cache-control"@,
        6 => "connection"@,
        7 => "content-length"@,
        8 => "content-type"@,
        9 => "cookie"@,
        10 => "host"@,
        11 => "if-modified-since"@,
        12 => "if-none-match"@,
        13 => "origin"@,
        14 => "referer"@,
        15 => "user-agent"@,
        16 => "x-forwarded-for"@,
        17 => "x-requested-with"@,
        18 => "access-control-allow-origin"@,
        19 => "access-control-allow-methods"@,
        20 => "access-control-allow-headers"@,
        21 => "content-disposition"@,
        22 => "content-encoding"@,
        23 => "date"@,
        24 => "etag"@,
        25 => "expires"@,
        26 => "last-modified"@,
        27 => "location"@,
        28 => "server"@,
        29 => "set-cookie"@,
        30 => "transfer-encoding"@,
        31 => "vary"@,
        32 => "www-authenticate"@,
        33 => "x-content-type-options"@,
        34 => "x-frame-options"@,
        35 => "x-xss-protection"@,
        _ => Seq::empty(),
    }
}

/// Canonical spelling of the well-known header name with id `id`.
pub open spec fn header_display_chars(id: u32) -> Seq<char> {
    match id {
        1 => "Accept"@,
        2 => "Accept-Charset"@,
        3 => "Accept-Encoding"@,
        4 => "Accept-Language"@,
        5 => "Authorization"@,
        6 => "Cache-Control"@,
        7 => "Connection"@,
        8 => "Content-Length"@,
        9 => "Content-Type"@,
        10 => "Cookie"@,
        11 => "Host"@,
        12 => "If-Modified-Since"@,
        13 => "If-None-Match"@,
        14 => "Origin"@,
        15 => "Referer"@,
        16 => "User-Agent"@,
        17 => "X-Forwarded-For"@,
        18 => "X-Requested-With"@,
        19 => "Access-Control-Allow-Origin"@,
        20 => "Access-Control-Allow-Methods"@,
        21 => "Access-Control-Allow-Headers"@,
        22 => "Content-Disposition"@,
        23 => "Content-Encoding"@,
        24 => "Date"@,
        25 => "ETag"@,
        26 => "Expires"@,
        27 => "Last-Modified"@,
        28 => "Location"@,
        29 => "Server"@,
        30 => "Set-Cookie"@,
        31 => "Transfer-Encoding"@,
        32 => "Vary"@,
        33 => "WWW-Authenticate"@,
        34 => "X-Content-Type-Options"@,
        35 => "X-Frame-Options"@,
        36 => "X-XSS-Protection"@,
        _ => Seq::empty(),
    }
}

/// Lower-case name bytes of the well-known header with table index `k`.
pub open spec fn header_key_bytes(k: u32) -> Seq<u8> {
    ascii_bytes(header_key_chars(k))
}

/// First table index, from `k` on, whose lower-case name is `lower`.
pub open spec fn first_key_from(lower: Seq<u8>, k: int) -> Option<int>
    decreases 36 - k,
{
    if k < 0 || k >= 36 {
        None
    } else if header_key_bytes(k as u32) == lower {
        Some(k)
    } else {
        first_key_from(lower, k + 1)
    }
}

/// Id of a well-known header name (ASCII case ignored), or 0 when the name is not one.
pub open spec fn spec_intern_header(name: Seq<u8>) -> u32 {
    if name.len() < 4 || name.len() > 32 {
        0
    } else {
        match first_key_from(seq_lower(name), 0) {
            Some(k) => (k + 1) as u32,
            None => 0,
        }
    }
}

/// Lower-case name of the well-known header with table index `k`.
fn header_key(k: usize) -> (r: &'static str)
    requires
        k < 36,
    ensures
        r.spec_bytes() == header_key_bytes(k as u32),
{
    let s = match k {
        0 => "accept",
        1 => "accept-charset",
        2 => "accept-encoding",
        3 => "accept-language",
        4 => "authorization",
        5 => "cache-control",
        6 => "connection",
        7 => "content-length",
        8 => "content-type",
        9 => "cookie",
        10 => "host",
        11 => "if-modified-since",
        12 => "if-none-match",
        13 => "origin",
        14 => "referer",
        15 => "user-agent",
        16 => "x-forwarded-for",
        17 => "x-requested-with",
        18 => "access-control-allow-origin",
        19 => "access-control-allow-methods",
        20 => "access-control-allow-headers",
        21 => "content-disposition",
        22 => "content-encoding",
        23 => "date",
        24 => "etag",
        25 => "expires",
        26 => "last-modified",
        27 => "location",
        28 => "server",
        29 => "set-cookie",
        30 => "transfer-encoding",
        31 => "vary",
        32 => "www-authenticate",
        33 => "x-content-type-options",
        34 => "x-frame-options",
        35 => "x-xss-protection",
        _ => "x-xss-protection",
    };
    proof {
        reveal_strlit("accept");
        reveal_strlit("accept-charset");
        reveal_strlit("accept-encoding");
        reveal_strlit("accept-language");
        reveal_strlit("authorization");
        reveal_strlit("cache-control");
        reveal_strlit("connection");
        reveal_strlit("content-length");
        reveal_strlit("content-type");
        reveal_strlit("cookie");
        reveal_strlit("host");
        reveal_strlit("if-modified-since");
        reveal_strlit("if-none-match");
        reveal_strlit("origin");
        reveal_strlit("referer");
        reveal_strlit("user-agent");
        reveal_strlit("x-forwarded-for");
        reveal_strlit("x-requested-with");
        reveal_strlit("access-control-allow-origin");
        reveal_strlit("access-control-allow-methods");
        reveal_strlit("access-control-allow-headers");
        reveal_strlit("content-disposition");
        reveal_strlit("content-encoding");
        reveal_strlit("date");
        reveal_strlit("etag");
        reveal_strlit("expires");
        reveal_strlit("last-modified");
        reveal_strlit("location");
        reveal_strlit("server");
        reveal_strlit("set-cookie");
        reveal_strlit("transfer-encoding");
        reveal_strlit("vary");
        reveal_strlit("www-authenticate");
        reveal_strlit("x-content-type-options");
        reveal_strlit("x-frame-options");
        reveal_strlit("x-xss-protection");
        vstd::string::is_ascii_spec_bytes(s);
        assert(vstd::string::is_ascii(s));
        assert(s.spec_bytes() =~= header_key_bytes(k as u32));
    }
    s
}

impl InternId {
    /// Create an id from its raw value.
    pub fn from_raw(id: u32) -> (r: Self)
        ensures
            r.0 == id,
    {
        InternId(id)
    }

    /// The raw value.
    pub fn raw(self) -> (r: u32)
        ensures
            r == self.0,
    {
        self.0
    }

    /// The id that stands for no string.
    #[allow(non_snake_case)]
    pub fn UNKNOWN() -> (r: Self)
        ensures
            r.0 == 0,
    {
        InternId(0)
    }
}

/// Look up a well-known header name, ignoring ASCII case; `UNKNOWN` when it is not one.
pub fn intern_header(name: &[u8]) -> (r: InternId)
    ensures
        r.0 == spec_intern_header(name@),
{
    let len = name.len();
    if len < 4 || len > 32 {
        return InternId(0);
    }
    let lower = to_lower_vec(name);
    let mut k: usize = 0;
    while k < 36
        invariant
            k <= 36,
            4 <= name@.len() <= 32,
            lower@ == seq_lower(name@),
            first_key_from(lower@, 0) == first_key_from(lower@, k as int),
        decreases 36 - k,
    {
        let key = header_key(k);
        if bytes_eq(key.as_bytes(), lower.as_slice()) {
            proof {
                assert(header_key_bytes(k as u32) == lower@);
                assert(first_key_from(lower@, k as int) == Some(k as int));
                assert(first_key_from(seq_lower(name@), 0) == Some(k as int));
                assert(spec_intern_header(name@) == (k + 1) as u32);
            }
            return InternId((k + 1) as u32);
        }
        k += 1;
    }
    InternId(0)
}

/// Canonical spelling of a well-known header name.
pub fn header_name(id: InternId) -> (r: Option<&'static str>)
    ensures
        r is Some <==> (1 <= id.0 <= 36),
        r matches Some(s) ==> s@ == header_display_chars(id.0),
{
    let s = match id.0 {
        1 => "Accept",
        2 => "Accept-Charset",
        3 => "Accept-Encoding",
        4 => "Accept-Language",
        5 => "Authorization",
        6 => "Cache-Control",
        7 => "Connection",
        8 => "Content-Length",
        9 => "Content-Type",
        10 => "Cookie",
        11 => "Host",
        12 => "If-Modified-Since",
        13 => "If-None-Match",
        14 => "Origin",
        15 => "Referer",
        16 => "User-Agent",
        17 => "X-Forwarded-For",
        18 => "X-Requested-With",
        19 => "Access-Control-Allow-Origin",
        20 => "Access-Control-Allow-Methods",
        21 => "Access-Control-Allow-Headers",
        22 => "Content-Disposition",
        23 => "Content-Encoding",
        24 => "Date",
        25 => "ETag",
        26 => "Expires",
        27 => "Last-Modified",
        28 => "Location",
        29 => "Server",
        30 => "Set-Cookie",
        31 => "Transfer-Encoding",
        32 => "Vary",
        33 => "WWW-Authenticate",
        34 => "X-Content-Type-Options",
        35 => "X-Frame-Options",
        36 => "X-XSS-Protection",
        _ => {
            return None;
        },
    };
    Some(s)
}

/// Interner handing out ids from `DYNAMIC_START` on, in the order strings are first seen.
#[derive(Debug)]
pub struct StringInterner {
    strings: Vec<String>,
}

/// The position `s` takes among the interned strings `v`: where it first occurs, or at
/// the end when it is new.
pub open spec fn intern_slot(v: Seq<Seq<char>>, s: Seq<char>) -> int {
    match v.index_of_first(s) {
        Some(i) => i,
        None => v.len() as int,
    }
}

/// The interned strings after interning `s`: unchanged when `s` is there, else `s` added.
pub open spec fn after_intern(v: Seq<Seq<char>>, s: Seq<char>) -> Seq<Seq<char>> {
    if v.contains(s) {
        v
    } else {
        v.push(s)
    }
}

/// What id `id` stands for, given the interned strings `v`.
pub open spec fn lookup(v: Seq<Seq<char>>, id: u32) -> Option<Seq<char>> {
    if 1 <= id <= 36 {
        Some(header_display_chars(id))
    } else if DYNAMIC_START <= id && id - DYNAMIC_START < v.len() {
        Some(v[id - DYNAMIC_START])
    } else {
        None
    }
}

/// Looking up the id that interning `s` hands out gives `s` back.
pub proof fn law_get_after_intern(v: Seq<Seq<char>>, s: Seq<char>)
    requires
        v.len() + DYNAMIC_START <= u32::MAX,
    ensures
        lookup(after_intern(v, s), (DYNAMIC_START + intern_slot(v, s)) as u32) == Some(s),
{
    v.index_of_first_ensures(s);
}

/// Interning a string a second time changes nothing and hands out the same id.
pub proof fn law_intern_twice(v: Seq<Seq<char>>, s: Seq<char>)
    ensures
        after_intern(after_intern(v, s), s) == after_intern(v, s),
        intern_slot(after_intern(v, s), s) == intern_slot(v, s),
{
    v.index_of_first_ensures(s);
    let v2 = after_intern(v, s);
    v2.index_of_first_ensures(s);
    if !v.contains(s) {
        assert(v2[v.len() as int] == s);
        assert(v2.contains(s));
    }
}

/// Interning one string and then another hands out the same id exactly when the two
/// strings are equal, and never an id below `DYNAMIC_START` (those of the well-known
/// header names).
pub proof fn law_intern_ids_distinct(v: Seq<Seq<char>>, s1: Seq<char>, s2: Seq<char>)
    ensures
        intern_slot(v, s1) >= 0,
        (intern_slot(after_intern(v, s1), s2) == intern_slot(v, s1)) <==> s1 == s2,
{
    v.index_of_first_ensures(s1);
    let v1 = after_intern(v, s1);
    v1.index_of_first_ensures(s2);
    let i1 = intern_slot(v, s1);
    assert(0 <= i1 < v1.len() && v1[i1] == s1) by {
        if !v.contains(s1) {
            assert(v1[v.len() as int] == s1);
        }
    }
    if s1 == s2 {
        law_intern_twice(v, s1);
    } else {
        if v1.contains(s2) {
            let i2 = intern_slot(v1, s2);
            assert(v1[i2] == s2);
        }
    }
}

/// No string stands for the unknown id, nor for the ids between the well-known header
/// names and the first dynamic id; every id that interning hands out is a dynamic one,
/// and interning a new string adds exactly one.
pub proof fn law_reserved_ids(v: Seq<Seq<char>>, s: Seq<char>, id: u32)
    requires
        id == 0 || 37 <= id < DYNAMIC_START,
    ensures
        lookup(v, id) is None,
        DYNAMIC_START + intern_slot(v, s) >= DYNAMIC_START,
        after_intern(v, s).len() == v.len() + (if v.contains(s) { 0int } else { 1int }),
{
    v.index_of_first_ensures(s);
}

impl StringInterner {
    /// The interned strings; the string at index `i` has id `DYNAMIC_START + i`.
    pub closed spec fn view(&self) -> Seq<Seq<char>> {
        self.strings@.map_values(|s: String| s@)
    }

    /// An empty interner.
    pub fn new() -> (r: Self)
        ensures
            r.view() == Seq::<Seq<char>>::empty(),
    {
        let r = StringInterner { strings: Vec::new() };
        proof {
            assert(r.view() =~= Seq::<Seq<char>>::empty());
        }
        r
    }

    /// Intern `s`: its existing id when it was seen before, else a fresh one.
    pub fn intern(&mut self, s: &str) -> (r: InternId)
        requires
            old(self).view().len() + DYNAMIC_START <= u32::MAX,
        ensures
            final(self).view() == after_intern(old(self).view(), s@),
            r.0 == DYNAMIC_START + intern_slot(old(self).view(), s@),
    {
        proof {
            self.view().index_of_first_ensures(s@);
        }
        let mut i: usize = 0;
        let n = self.strings.len();
        while i < n
            invariant
                n == self.strings@.len(),
                n == self.view().len(),
                n + DYNAMIC_START <= u32::MAX,
                self == old(self),
                i <= n,
                forall|j: int| 0 <= j < i ==> self.view()[j] != s@,
            decreases n - i,
        {
            let cur = self.strings[i].as_str();
            proof {
                lemma_str_bytes_eq(cur, s);
            }
            if bytes_eq(cur.as_bytes(), s.as_bytes()) {
                proof {
                    assert(self.view()[i as int] == s@);
                    self.view().index_of_first_ensures(s@);
                    let f = self.view().index_of_first(s@)->0;
                    assert(!(f < i) && !(i < f));
                }
                return InternId(DYNAMIC_START + i as u32);
            }
            proof {
                assert(self.view()[i as int] != s@);
            }
            i += 1;
        }
        let id = DYNAMIC_START + n as u32;
        self.strings.push(s.to_owned());
        proof {
            assert(self.view() =~= old(self).view().push(s@));
            assert(!old(self).view().contains(s@));
        }
        InternId(id)
    }

    /// The string an id stands for: a well-known header name, or an interned string.
    pub fn get(&self, id: InternId) -> (r: Option<String>)
        ensures
            match r {
                Some(x) => lookup(self.view(), id.0) == Some(x@),
                None => lookup(self.view(), id.0) is None,
            },
    {
        if let Some(name) = header_name(id) {
            return Some(name.to_owned());
        }
        if id.0 >= DYNAMIC_START {
            let idx = (id.0 - DYNAMIC_START) as usize;
            if idx < self.strings.len() {
                return Some(self.strings[idx].clone());
            }
        }
        None
    }

    /// Number of interned strings (the well-known header names excluded).
    pub fn len(&self) -> (r: usize)
        ensures
            r == self.view().len(),
    {
        self.strings.len()
    }

    /// True when no string has been interned.
    pub fn is_empty(&self) -> (r: bool)
        ensures
            r == (self.view().len() == 0),
    {
        self.strings.len() == 0
    }
}

} // verus!
