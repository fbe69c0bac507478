//! What the parser reads back from the bytes a request builder writes.

use vstd::prelude::*;
use vstd::utf8::{encode_utf8, valid_utf8};
use crate::bytes::{decimal, digits_value, eq_ignore_case, index_of, lemma_decimal, lemma_index_of_unique, seq_lower, spec_parse_usize};
use crate::http::headers::content_length_name;
use crate::http::method::{law_method_name_roundtrip, method_bytes, spec_method_from_bytes, Method};
use crate::http::parser::{
    crlf_from, default_config, http_prefix, last_value, skip_blanks, spec_body_len, spec_header_line,
    spec_headers, spec_parse, spec_request_line, SpecHead,
};
use crate::http::request::spec_build_bytes;
use crate::http::response::{content_length_line, header_lines};
use crate::text::{all_ascii, ascii_bytes, lemma_ascii_valid};

verus! {

/// `\r\n`
pub open spec fn crlf() -> Seq<u8> {
    seq![13u8, 10]
}

/// `Content-Length`
pub open spec fn content_length_header() -> Seq<u8> {
    ascii_bytes("Content-Length"@)
}

/// `HTTP/1.1`
pub open spec fn http11() -> Seq<u8> {
    seq![72u8, 84, 84, 80, 47, 49, 46, 49]
}

/// No byte of `s` is `c`.
pub open spec fn lacks(s: Seq<u8>, c: u8) -> bool {
    forall|i: int| 0 <= i < s.len() ==> s[i] != c
}

proof fn lemma_literals()
    ensures
        ascii_bytes(" "@) == seq![32u8],
        ascii_bytes("/"@) == seq![47u8],
        ascii_bytes(": "@) == seq![58u8, 32],
        ascii_bytes("\r\n"@) == crlf(),
        ascii_bytes(" HTTP/1.1\r\n"@) == seq![32u8] + http11() + crlf(),
        ascii_bytes("Content-Length: "@) == content_length_header() + seq![58u8, 32],
        content_length_header() == seq![67u8, 111, 110, 116, 101, 110, 116, 45, 76, 101, 110, 103, 116, 104],
        content_length_name() == seq![99u8, 111, 110, 116, 101, 110, 116, 45, 108, 101, 110, 103, 116, 104],
        eq_ignore_case(content_length_header(), content_length_name()),
{
    reveal_strlit(" ");
    reveal_strlit("/");
    reveal_strlit(": ");
    reveal_strlit("\r\n");
    reveal_strlit(" HTTP/1.1\r\n");
    reveal_strlit("Content-Length: ");
    reveal_strlit("Content-Length");
    reveal_strlit("content-length");
    assert(ascii_bytes(" "@) =~= seq![32u8]);
    assert(ascii_bytes("/"@) =~= seq![47u8]);
    assert(ascii_bytes(": "@) =~= seq![58u8, 32]);
    assert(ascii_bytes("\r\n"@) =~= crlf());
    assert(ascii_bytes(" HTTP/1.1\r\n"@) =~= seq![32u8] + http11() + crlf());
    assert(content_length_header() =~= seq![67u8, 111, 110, 116, 101, 110, 116, 45, 76, 101, 110, 103, 116, 104]);
    assert(ascii_bytes("Content-Length: "@) =~= content_length_header() + seq![58u8, 32]);
    assert(content_length_name() =~= seq![99u8, 111, 110, 116, 101, 110, 116, 45, 108, 101, 110, 103, 116, 104]);
    assert(seq_lower(content_length_header()) =~= seq_lower(content_length_name()));
}

/// The first `\r\n` from `i` is at `k` when no byte from `i` to `k` is `\r`.
proof fn lemma_crlf_at(s: Seq<u8>, i: int, k: int)
    requires
        0 <= i <= k,
        k + 1 < s.len(),
        s[k] == 13,
        s[k + 1] == 10,
        forall|j: int| i <= j < k ==> s[j] != 13,
    ensures
        crlf_from(s, i) == Some(k),
    decreases k - i,
{
    if i < k {
        lemma_crlf_at(s, i + 1, k);
    }
}


/// A number written in decimal parses back to itself.
proof fn lemma_parse_decimal(n: nat)
    requires
        n <= usize::MAX,
    ensures
        spec_parse_usize(decimal(n)) == Some(n as usize),
{
    lemma_decimal(n);
}

/// A header the parser reads back as written: no `:` in the name, no `\r` in name or
/// value, a value that does not start with a blank, within the default limits, and valid
/// UTF-8.
pub open spec fn header_ok(name: Seq<u8>, value: Seq<u8>) -> bool {
    &&& lacks(name, 58)
    &&& lacks(name, 13)
    &&& lacks(value, 13)
    &&& (value.len() > 0 ==> value[0] != 32 && value[0] != 9)
    &&& name.len() <= 256
    &&& value.len() <= 8192
    &&& valid_utf8(name)
    &&& valid_utf8(value)
}

/// The line `name: value` (without its `\r\n`).
pub open spec fn header_text(name: Seq<u8>, value: Seq<u8>) -> Seq<u8> {
    name + seq![58u8, 32] + value
}

proof fn lemma_header_step(
    buf: Seq<u8>,
    p: int,
    count: int,
    acc: Seq<(Seq<u8>, Seq<u8>)>,
    name: Seq<u8>,
    value: Seq<u8>,
)
    requires
        header_ok(name, value),
        0 <= p,
        0 <= count,
        count + 1 <= 64,
        p + header_text(name, value).len() + 2 <= buf.len(),
        buf.subrange(p, p + header_text(name, value).len() + 2) == header_text(name, value) + crlf(),
    ensures
        spec_headers(default_config(), buf, p, count, acc) == spec_headers(
            default_config(),
            buf,
            p + header_text(name, value).len() + 2,
            count + 1,
            acc.push((name, value)),
        ),
{
    let line = header_text(name, value);
    let l = line.len() as int;
    let c = name.len() as int;
    assert forall|j: int| 0 <= j < l implies buf[p + j] == line[j] by {
        assert(buf.subrange(p, p + l + 2)[j] == (line + crlf())[j]);
    }
    assert(buf[p + l] == 13) by {
        assert(buf.subrange(p, p + l + 2)[l] == (line + crlf())[l]);
    }
    assert(buf[p + l + 1] == 10) by {
        assert(buf.subrange(p, p + l + 2)[l + 1] == (line + crlf())[l + 1]);
    }
    assert forall|j: int| 0 <= j < l implies line[j] != 13 by {
        if j < c {
            assert(line[j] == name[j]);
        } else if j >= c + 2 {
            assert(line[j] == value[j - c - 2]);
        }
    }
    assert(buf[p] != 13) by {
        assert(buf[p + 0] == line[0]);
    }
    assert forall|j: int| p <= j < p + l implies buf[j] != 13 by {
        assert(buf[p + (j - p)] == line[j - p]);
    }
    lemma_crlf_at(buf, p, p + l);
    assert(buf.subrange(p, p + l) =~= line);
    assert forall|j: int| 0 <= j < c implies line[j] != 58 by {
        assert(line[j] == name[j]);
    }
    lemma_index_of_unique(line, 58, c);
    assert(line.subrange(0, c) =~= name);
    if c + 2 < l {
        assert(line[c + 2] == value[0]);
    }
    assert(skip_blanks(line, c + 2) == c + 2);
    assert(line[c + 1] == 32);
    assert(skip_blanks(line, c + 1) == c + 2);
    assert(line.subrange(c + 2, l) =~= value);
    assert(spec_header_line(default_config(), line) == Ok::<(Seq<u8>, Seq<u8>), crate::http::parser::ParseError>((name, value)));
    assert(count < crate::http::headers::MAX_NAMES);
}

/// Every header is one the parser reads back as written.
pub open spec fn headers_ok(hs: Seq<(Seq<u8>, Seq<u8>)>) -> bool {
    forall|i: int| 0 <= i < hs.len() ==> header_ok(#[trigger] hs[i].0, hs[i].1)
}

proof fn lemma_lines_step(hs: Seq<(Seq<u8>, Seq<u8>)>, k: int)
    requires
        0 <= k < hs.len(),
    ensures
        header_lines(hs.take(k + 1)) == header_lines(hs.take(k)) + header_text(hs[k].0, hs[k].1) + crlf(),
{
    lemma_literals();
    assert(hs.take(k + 1).drop_last() =~= hs.take(k));
    assert(hs.take(k + 1).last() == hs[k]);
    assert(header_lines(hs.take(k + 1)) =~= header_lines(hs.take(k)) + header_text(hs[k].0, hs[k].1) + crlf());
}

proof fn lemma_lines_prefix(hs: Seq<(Seq<u8>, Seq<u8>)>, k: int)
    requires
        0 <= k <= hs.len(),
    ensures
        header_lines(hs.take(k)).len() <= header_lines(hs).len(),
        header_lines(hs).subrange(0, header_lines(hs.take(k)).len() as int) == header_lines(hs.take(k)),
    decreases hs.len() - k,
{
    if k == hs.len() {
        assert(hs.take(k) =~= hs);
        assert(header_lines(hs).subrange(0, header_lines(hs).len() as int) =~= header_lines(hs));
    } else {
        lemma_lines_prefix(hs, k + 1);
        lemma_lines_step(hs, k);
        let a = header_lines(hs.take(k));
        let b = header_lines(hs.take(k + 1));
        assert(header_lines(hs).subrange(0, a.len() as int) =~= b.subrange(0, a.len() as int));
        assert(b.subrange(0, a.len() as int) =~= a);
    }
}

proof fn lemma_headers_run(buf: Seq<u8>, p0: int, hs: Seq<(Seq<u8>, Seq<u8>)>, k: int)
    requires
        headers_ok(hs),
        hs.len() <= 64,
        0 <= p0,
        0 <= k <= hs.len(),
        p0 + header_lines(hs).len() <= buf.len(),
        buf.subrange(p0, p0 + header_lines(hs).len()) == header_lines(hs),
    ensures
        spec_headers(default_config(), buf, p0, 0, Seq::empty()) == spec_headers(
            default_config(),
            buf,
            p0 + header_lines(hs.take(k)).len(),
            k,
            hs.take(k),
        ),
    decreases k,
{
    if k == 0 {
        assert(hs.take(0) =~= Seq::<(Seq<u8>, Seq<u8>)>::empty());
    } else {
        lemma_headers_run(buf, p0, hs, k - 1);
        lemma_lines_step(hs, k - 1);
        lemma_lines_prefix(hs, k);
        let a = header_lines(hs.take(k - 1));
        let t = header_text(hs[k - 1].0, hs[k - 1].1);
        let p = p0 + a.len();
        let whole = header_lines(hs);
        let b = header_lines(hs.take(k));
        assert(b == a + t + crlf());
        assert(buf.subrange(p, p + t.len() + 2) =~= t + crlf()) by {
            assert forall|j: int| 0 <= j < t.len() + 2 implies buf.subrange(p, p + t.len() + 2)[j] == (t + crlf())[j] by {
                assert(buf.subrange(p0, p0 + whole.len())[a.len() + j] == whole[a.len() + j]);
                assert(whole.subrange(0, b.len() as int)[a.len() + j] == b[a.len() + j]);
            }
        }
        assert(header_ok(hs[k - 1].0, hs[k - 1].1));
        lemma_header_step(buf, p, k - 1, hs.take(k - 1), hs[k - 1].0, hs[k - 1].1);
        assert(hs.take(k - 1).push(hs[k - 1]) =~= hs.take(k));
    }
}

/// `10` to the power `k`.
pub open spec fn pow10(k: nat) -> nat
    decreases k,
{
    if k == 0 { 1 } else { 10 * pow10((k - 1) as nat) }
}

proof fn lemma_decimal_len(n: nat, k: nat)
    requires
        k >= 1,
        n < pow10(k),
    ensures
        decimal(n).len() <= k,
    decreases k,
{
    if n >= 10 {
        assert(k >= 2) by {
            if k == 1 {
                assert(pow10(1) == 10 * pow10(0));
            }
        }
        let p = pow10((k - 1) as nat);
        assert(pow10(k) == 10 * p);
        assert(n / 10 < p) by (nonlinear_arith)
            requires
                n < 10 * p,
        ;
        lemma_decimal_len(n / 10, (k - 1) as nat);
    }
}

proof fn lemma_method_bytes(m: Method)
    ensures
        lacks(method_bytes(m), 13),
        lacks(method_bytes(m), 32),
        all_ascii(method_bytes(m)),
        method_bytes(m).len() >= 1,
{
}

proof fn lemma_last_value_none(hs: Seq<(Seq<u8>, Seq<u8>)>, name: Seq<u8>)
    requires
        forall|i: int| 0 <= i < hs.len() ==> !eq_ignore_case(#[trigger] hs[i].0, name),
    ensures
        last_value(hs, name) is None,
    decreases hs.len(),
{
    if hs.len() > 0 {
        assert(!eq_ignore_case(hs[hs.len() - 1].0, name));
        assert forall|i: int| 0 <= i < hs.drop_last().len() implies !eq_ignore_case(#[trigger] hs.drop_last()[i].0, name) by {
            assert(hs.drop_last()[i] == hs[i]);
        }
        lemma_last_value_none(hs.drop_last(), name);
    }
}

/// The URI a builder writes: `/` for an empty one.
pub open spec fn written_uri(uri: Seq<u8>) -> Seq<u8> {
    if uri.len() == 0 { seq![47u8] } else { uri }
}

/// The headers of a built request: the builder's, then `Content-Length` for a non-empty
/// body.
pub open spec fn built_headers(hs: Seq<(Seq<u8>, Seq<u8>)>, body: Seq<u8>) -> Seq<(Seq<u8>, Seq<u8>)> {
    if body.len() > 0 { hs.push((content_length_header(), decimal(body.len()))) } else { hs }
}

proof fn lemma_request_line_part(m: Method, uri: Seq<u8>, buf: Seq<u8>)
    requires
        lacks(uri, 32),
        lacks(uri, 13),
        valid_utf8(uri),
        uri.len() <= 8192,
        buf.len() >= (method_bytes(m) + seq![32u8] + written_uri(uri) + seq![32u8] + http11() + crlf()).len(),
        buf.subrange(0, (method_bytes(m) + seq![32u8] + written_uri(uri) + seq![32u8] + http11() + crlf()).len() as int)
            == method_bytes(m) + seq![32u8] + written_uri(uri) + seq![32u8] + http11() + crlf(),
    ensures
        ({
            let rl = (method_bytes(m) + seq![32u8] + written_uri(uri) + seq![32u8] + http11()).len() as int;
            &&& crlf_from(buf, 0) == Some(rl)
            &&& spec_request_line(default_config(), buf.subrange(0, rl)) == Ok::<(Method, Seq<u8>, Seq<u8>), crate::http::parser::ParseError>((m, written_uri(uri), http11()))
        }),
{
    lemma_method_bytes(m);
    let cfg = default_config();
    let mb = method_bytes(m);
    let wu = written_uri(uri);
    let head = mb + seq![32u8] + wu + seq![32u8] + http11() + crlf();
    let line = mb + seq![32u8] + wu + seq![32u8] + http11();
    let rl = line.len() as int;
    assert(head =~= line + crlf());
    assert forall|j: int| 0 <= j < head.len() implies buf[j] == head[j] by {
        assert(buf.subrange(0, head.len() as int)[j] == head[j]);
    }
    assert(buf.subrange(0, rl) =~= line);
    assert(lacks(wu, 13) && lacks(wu, 32));
    assert forall|j: int| 0 <= j < rl implies buf[j] != 13 by {
        assert(buf[j] == head[j]);
        assert(head[j] == line[j]);
        if j < mb.len() {
            assert(line[j] == mb[j]);
        } else if mb.len() < j < mb.len() + 1 + wu.len() {
            assert(line[j] == wu[j - mb.len() - 1]);
        }
    }
    assert(buf[rl] == 13 && buf[rl + 1] == 10) by {
        assert(buf[rl] == head[rl]);
        assert(buf[rl + 1] == head[rl + 1]);
    }
    lemma_crlf_at(buf, 0, rl);
    assert forall|j: int| 0 <= j < mb.len() implies line[j] != 32 by {
        assert(line[j] == mb[j]);
    }
    lemma_index_of_unique(line, 32, mb.len() as int);
    assert(line.subrange(0, mb.len() as int) =~= mb);
    law_method_name_roundtrip(m, mb);
    let rest = line.subrange(mb.len() + 1int, rl);
    assert(rest =~= wu + seq![32u8] + http11());
    assert forall|j: int| 0 <= j < wu.len() implies rest[j] != 32 by {
        assert(rest[j] == wu[j]);
    }
    lemma_index_of_unique(rest, 32, wu.len() as int);
    assert(rest.subrange(0, wu.len() as int) =~= wu);
    assert(rest.subrange(wu.len() + 1int, rest.len() as int) =~= http11());
    assert(http11().subrange(0, 5) =~= http_prefix());
    assert(valid_utf8(wu)) by {
        if uri.len() == 0 {
            lemma_ascii_valid(wu);
        }
    }
    lemma_ascii_valid(http11());
}

proof fn lemma_header_part(hs: Seq<(Seq<u8>, Seq<u8>)>, body: Seq<u8>, buf: Seq<u8>, p0: int)
    requires
        headers_ok(hs),
        hs.len() + (if body.len() > 0 { 1int } else { 0int }) <= 64,
        body.len() <= usize::MAX,
        body.len() == 0 ==> forall|i: int| 0 <= i < hs.len() ==> !eq_ignore_case(#[trigger] hs[i].0, content_length_name()),
        0 <= p0,
        buf.len() == p0 + (header_lines(hs) + content_length_line(body.len()) + crlf() + body).len(),
        buf.subrange(p0, buf.len() as int) == header_lines(hs) + content_length_line(body.len()) + crlf() + body,
    ensures
        spec_headers(default_config(), buf, p0, 0, Seq::empty()) == Ok::<(Seq<(Seq<u8>, Seq<u8>)>, int), crate::http::parser::ParseError>((
            built_headers(hs, body),
            buf.len() - body.len(),
        )),
        spec_body_len(built_headers(hs, body)) == body.len(),
{
    lemma_literals();
    let cfg = default_config();
    let hl = header_lines(hs);
    let cll = content_length_line(body.len());
    let tail = hl + cll + crlf() + body;
    assert forall|j: int| 0 <= j < tail.len() implies buf[p0 + j] == tail[j] by {
        assert(buf.subrange(p0, buf.len() as int)[j] == tail[j]);
    }
    assert(buf.subrange(p0, p0 + hl.len()) =~= hl) by {
        assert forall|j: int| 0 <= j < hl.len() implies buf.subrange(p0, p0 + hl.len())[j] == hl[j] by {
            assert(buf[p0 + j] == tail[j]);
        }
    }
    lemma_headers_run(buf, p0, hs, hs.len() as int);
    assert(hs.take(hs.len() as int) =~= hs);
    let p1 = p0 + hl.len();
    let hs2 = built_headers(hs, body);
    let p2 = p1 + cll.len();
    if body.len() > 0 {
        let clh = content_length_header();
        let dec = decimal(body.len());
        lemma_decimal(body.len());
        assert(pow10(20) == 100000000000000000000) by {
            reveal_with_fuel(pow10, 21);
        }
        lemma_decimal_len(body.len(), 20);
        assert(cll =~= header_text(clh, dec) + crlf());
        assert(all_ascii(clh));
        lemma_ascii_valid(clh);
        assert(all_ascii(dec));
        lemma_ascii_valid(dec);
        assert(header_ok(clh, dec));
        assert(buf.subrange(p1, p1 + cll.len()) =~= cll) by {
            assert forall|j: int| 0 <= j < cll.len() implies buf.subrange(p1, p1 + cll.len())[j] == cll[j] by {
                assert(buf[p0 + (hl.len() + j)] == tail[hl.len() + j]);
            }
        }
        lemma_header_step(buf, p1, hs.len() as int, hs, clh, dec);
        lemma_parse_decimal(body.len());
        assert(last_value(hs2, content_length_name()) == Some(dec));
    } else {
        assert(cll =~= Seq::<u8>::empty());
        lemma_last_value_none(hs, content_length_name());
    }
    assert(buf[p2] == 13 && buf[p2 + 1] == 10) by {
        assert(buf[p0 + (hl.len() + cll.len())] == tail[(hl.len() + cll.len()) as int]);
        assert(buf[p0 + (hl.len() + cll.len() + 1)] == tail[(hl.len() + cll.len() + 1) as int]);
    }
    assert(spec_headers(cfg, buf, p2, hs2.len() as int, hs2) == Ok::<(Seq<(Seq<u8>, Seq<u8>)>, int), crate::http::parser::ParseError>((hs2, p2 + 2)));
}

/// What a builder writes, the parser reads back: the method, the URI (`/` for an empty
/// one), version `HTTP/1.1`, the headers in order followed by `Content-Length` for a
/// non-empty body, and the body, which ends the bytes. This holds for URIs without spaces
/// or `\r`, headers the parser reads as written, no more headers than the parser takes,
/// and, when the body is empty, no header of the builder's own named `Content-Length`.
pub proof fn law_parse_built_request(m: Method, uri: Seq<u8>, hs: Seq<(Seq<u8>, Seq<u8>)>, body: Seq<u8>)
    requires
        lacks(uri, 32),
        lacks(uri, 13),
        valid_utf8(uri),
        uri.len() <= 8192,
        headers_ok(hs),
        hs.len() + (if body.len() > 0 { 1int } else { 0int }) <= 64,
        body.len() <= usize::MAX,
        body.len() == 0 ==> forall|i: int| 0 <= i < hs.len() ==> !eq_ignore_case(#[trigger] hs[i].0, content_length_name()),
    ensures
        ({
            let buf = spec_build_bytes(m, uri, hs, body);
            spec_parse(default_config(), buf) == Ok::<SpecHead, crate::http::parser::ParseError>((
                m,
                written_uri(uri),
                http11(),
                built_headers(hs, body),
                buf.len() - body.len(),
                buf.len() as int,
            ))
        }),
{
    lemma_literals();
    let mb = method_bytes(m);
    let wu = written_uri(uri);
    let hl = header_lines(hs);
    let cll = content_length_line(body.len());
    let buf = spec_build_bytes(m, uri, hs, body);
    let head = mb + seq![32u8] + wu + seq![32u8] + http11() + crlf();
    let tail = hl + cll + crlf() + body;
    assert(ascii_bytes("/"@) == seq![47u8]);
    assert(buf =~= head + tail);
    assert(buf.subrange(0, head.len() as int) =~= head);
    lemma_request_line_part(m, uri, buf);
    let p0 = head.len() as int;
    assert(buf.subrange(p0, buf.len() as int) =~= tail);
    lemma_header_part(hs, body, buf, p0);
}

} // verus!
