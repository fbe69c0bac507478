//! Connection handling of the HTTP server: what to do with the bytes read so far. The
//! socket itself is driven by the caller, which reads when told to and writes the
//! responses.

use vstd::prelude::*;
use vstd::string::StringSliceAdditionalSpecFns;
use crate::bytes::eq_ignore_case;
use crate::http::headers::{close_token, connection_name};
use crate::http::parser::{
    default_config, last_value, parse_error_text, request_matches, spec_parse, HttpParser, ParseError, SpecHead,
};
use crate::http::request::opt_bytes;
use crate::http::request::Request;
use crate::http::response::Response;

verus! {

/// Server configuration.
#[derive(Debug, Clone)]
pub struct ServerConfig {
    /// Read buffer size (default 8KB).
    pub read_buffer_size: usize,
    /// Write buffer size (default 8KB).
    pub write_buffer_size: usize,
    /// Read timeout in milliseconds (0 = no timeout).
    pub read_timeout_ms: u64,
    /// Write timeout in milliseconds (0 = no timeout).
    pub write_timeout_ms: u64,
    /// Maximum request size (default 1MB).
    pub max_request_size: usize,
}

impl Default for ServerConfig {
    fn default() -> (r: Self)
        ensures
            r.read_buffer_size == 8192,
            r.write_buffer_size == 8192,
            r.read_timeout_ms == 30000,
            r.write_timeout_ms == 30000,
            r.max_request_size == 1048576,
    {
        ServerConfig {
            read_buffer_size: 8192,
            write_buffer_size: 8192,
            read_timeout_ms: 30000,
            write_timeout_ms: 30000,
            max_request_size: 1048576,
        }
    }
}

/// Connection error.
#[derive(Debug)]
pub enum ConnectionError {
    Io(std::io::Error),
    Parse(ParseError),
    RequestTooLarge,
    UnexpectedEof,
    Closed,
}

/// The text of an I/O error as std displays it (`Display` of `io::Error`): the system's
/// description of the error, which depends on the machine, so nothing is stated of it.
#[verifier::external_body]
fn io_error_text(err: &std::io::Error) -> String {
    format!("{}", err)
}

impl ConnectionError {
    /// A description of the error: `I/O error: ` and the I/O error's own text, `Parse
    /// error: ` and the parse error's text, or a fixed text.
    pub fn message(&self) -> (r: String)
        ensures
            match self {
                ConnectionError::Io(_) => exists|t: Seq<char>| r@ == "I/O error: "@ + t,
                ConnectionError::Parse(p) => r@ == "Parse error: "@ + parse_error_text(*p),
                ConnectionError::RequestTooLarge => r@ == "Request too large"@,
                ConnectionError::UnexpectedEof => r@ == "Unexpected end of connection"@,
                ConnectionError::Closed => r@ == "Connection closed"@,
            },
    {
        match self {
            ConnectionError::Io(e) => {
                let mut out = String::new();
                out.append("I/O error: ");
                let text = io_error_text(e);
                out.append(text.as_str());
                proof {
                    assert(out@ =~= "I/O error: "@ + text@);
                }
                out
            },
            ConnectionError::Parse(p) => {
                let mut out = String::new();
                out.append("Parse error: ");
                out.append(p.message());
                proof {
                    assert(out@ =~= "Parse error: "@ + parse_error_text(*p));
                }
                out
            },
            ConnectionError::RequestTooLarge => "Request too large".to_string(),
            ConnectionError::UnexpectedEof => "Unexpected end of connection".to_string(),
            ConnectionError::Closed => "Connection closed".to_string(),
        }
    }
}

/// Whether a request with these headers keeps the connection open: unless its last
/// `Connection` header says `close` (in any case).
pub open spec fn keep_alive_of(hs: Seq<(Seq<u8>, Seq<u8>)>) -> bool {
    match last_value(hs, connection_name()) {
        Some(v) => !eq_ignore_case(v, close_token()),
        None => true,
    }
}

proof fn lemma_keep_alive_of<'a>(req: Request<'a>, buf: Seq<u8>, h: SpecHead)
    requires
        request_matches(req, buf, h),
    ensures
        (match req.headers.lookup(connection_name()) {
            Some(v) => !eq_ignore_case(v.spec_bytes(), close_token()),
            None => true,
        }) == keep_alive_of(h.3),
{
    assert(opt_bytes(req.headers.lookup(connection_name()), last_value(h.3, connection_name())));
}

/// What the caller does next with a connection.
#[derive(Debug)]
pub enum Action {
    /// Send this response; keep the connection open when the flag is set.
    Respond(Response, bool),
    /// Read more bytes from the socket (at most `room()` of them) and hand them over.
    Read,
    /// Stop with this error.
    Fail(ConnectionError),
}

/// The read side of a connection: the buffer and how much of it holds data.
pub struct Connection {
    read_buf: Vec<u8>,
    read_pos: usize,
    config: ServerConfig,
}

/// How the read buffer grows when it is full: twice as large, at most the largest request.
pub open spec fn grown(len: int, max: int) -> int {
    if len * 2 < max { len * 2 } else { max }
}

impl Connection {
    /// The bytes read and not yet used.
    pub closed spec fn pending(&self) -> Seq<u8> {
        self.read_buf@.subrange(0, self.read_pos as int)
    }

    /// Size of the read buffer.
    pub closed spec fn capacity(&self) -> int {
        self.read_buf@.len() as int
    }

    /// The configuration.
    pub closed spec fn conf(&self) -> ServerConfig {
        self.config
    }

    /// The buffer holds the pending bytes, and stays within what a `Vec` can hold.
    pub closed spec fn wf(&self) -> bool {
        &&& self.read_pos <= self.read_buf@.len()
        &&& self.read_buf@.len() <= isize::MAX
        &&& self.config.max_request_size <= isize::MAX
    }

    /// A connection with an empty buffer of the configured size.
    pub fn new(config: ServerConfig) -> (r: Self)
        requires
            config.read_buffer_size <= isize::MAX,
            config.max_request_size <= isize::MAX,
        ensures
            r.wf(),
            r.pending().len() == 0,
            r.capacity() == config.read_buffer_size,
            r.conf() == config,
    {
        let read_buf = vec![0u8; config.read_buffer_size];
        Connection { read_buf, read_pos: 0, config }
    }

    /// How many bytes the next read may bring.
    pub fn room(&self) -> (r: usize)
        requires
            self.wf(),
        ensures
            r == self.capacity() - self.pending().len(),
    {
        self.read_buf.len() - self.read_pos
    }

    /// What to do with the pending bytes. A complete request is handed to `handler`, its
    /// bytes leave the buffer, and its response is to be sent, keeping the connection open
    /// unless the request asks to close it. An incomplete request needs more bytes, unless
    /// the buffer already holds the largest request allowed; a full buffer grows first.
    /// Any other parse error ends the connection.
    pub fn step<F: FnOnce(&Request) -> Response>(&mut self, handler: F) -> (r: Action)
        requires
            old(self).wf(),
            forall|req: &Request| #[trigger] handler.requires((req,)),
        ensures
            final(self).wf(),
            final(self).conf() == old(self).conf(),
            match spec_parse(default_config(), old(self).pending()) {
                Ok(h) => {
                    &&& r matches Action::Respond(resp, keep) && keep == keep_alive_of(h.3) && exists|req: &Request|
                        request_matches(*req, old(self).pending(), h) && #[trigger] handler.ensures((req,), resp)
                    &&& final(self).pending() == old(self).pending().subrange(h.5, old(self).pending().len() as int)
                    &&& final(self).capacity() == old(self).capacity()
                },
                Err(ParseError::Incomplete) => if old(self).pending().len() >= old(self).conf().max_request_size {
                    &&& r matches Action::Fail(ConnectionError::RequestTooLarge)
                    &&& final(self).pending() == old(self).pending()
                } else {
                    &&& r is Read
                    &&& final(self).pending() == old(self).pending()
                    &&& final(self).capacity() == if old(self).pending().len() >= old(self).capacity() {
                        grown(old(self).capacity(), old(self).conf().max_request_size as int)
                    } else {
                        old(self).capacity()
                    }
                },
                Err(e) => {
                    &&& r matches Action::Fail(ConnectionError::Parse(e2)) && e2 == e
                    &&& final(self).pending() == old(self).pending()
                },
            },
    {
        let parser = HttpParser::new();
        let ghost before = self.pending();
        let ghost mut witness: Option<&Request> = None;
        let consumed_keep: Option<(usize, bool, Response)>;
        {
            let data = vstd::slice::slice_subrange(self.read_buf.as_slice(), 0, self.read_pos);
            let parsed = parser.parse(data);
            match parsed {
                Ok((req, consumed)) => {
                    let keep_alive = req.is_keep_alive();
                    let response = handler(&req);
                    proof {
                        let h = spec_parse(default_config(), before);
                        assert(data@ == before);
                        lemma_keep_alive_of(req, before, h->Ok_0);
                        assert(keep_alive == keep_alive_of((h->Ok_0).3));
                        witness = Some(&req);
                    }
                    consumed_keep = Some((consumed, keep_alive, response));
                },
                Err(ParseError::Incomplete) => {
                    consumed_keep = None;
                },
                Err(e) => {
                    return Action::Fail(ConnectionError::Parse(e));
                },
            }
        }
        match consumed_keep {
            Some((consumed, keep_alive, response)) => {
                self.shift(consumed);
                let r = Action::Respond(response, keep_alive);
                proof {
                    let w = witness->Some_0;
                    let h = spec_parse(default_config(), before)->Ok_0;
                    assert(request_matches(*w, before, h) && handler.ensures((w,), response));
                    assert(r->Respond_0 == response);
                }
                r
            },
            None => {
                if self.read_pos >= self.config.max_request_size {
                    return Action::Fail(ConnectionError::RequestTooLarge);
                }
                if self.read_pos >= self.read_buf.len() {
                    let len = self.read_buf.len();
                    let max = self.config.max_request_size;
                    let new_size = if len * 2 < max { len * 2 } else { max };
                    self.read_buf.resize(new_size, 0u8);
                    proof {
                        assert(self.read_buf@.subrange(0, self.read_pos as int) =~= before);
                    }
                }
                Action::Read
            },
        }
    }

    /// Drops the first `consumed` pending bytes, moving the rest to the front.
    fn shift(&mut self, consumed: usize)
        requires
            old(self).wf(),
            consumed <= old(self).pending().len(),
        ensures
            final(self).wf(),
            final(self).conf() == old(self).conf(),
            final(self).capacity() == old(self).capacity(),
            final(self).pending() == old(self).pending().subrange(consumed as int, old(self).pending().len() as int),
    {
        let ghost p0 = self.pending();
        let n = self.read_pos;
        if consumed < n {
            let mut i: usize = consumed;
            while i < n
                invariant
                    consumed <= i <= n,
                    n == self.read_pos,
                    n <= self.read_buf@.len(),
                    self.read_buf@.len() == old(self).read_buf@.len(),
                    self.config == old(self).config,
                    forall|k: int| 0 <= k < i - consumed ==> self.read_buf@[k] == p0[k + consumed],
                    forall|k: int| consumed <= k < n && k >= i - consumed ==> #[trigger] self.read_buf@[k] == p0[k],
                    p0 == old(self).read_buf@.subrange(0, n as int),
                decreases n - i,
            {
                let b = self.read_buf[i];
                self.read_buf.set(i - consumed, b);
                i = i + 1;
            }
            self.read_pos = n - consumed;
        } else {
            self.read_pos = 0;
        }
        proof {
            assert(self.pending() =~= p0.subrange(consumed as int, p0.len() as int));
        }
    }

    /// Takes bytes read from the socket. Reading nothing means the peer closed the
    /// connection: cleanly when nothing was pending, in the middle of a request otherwise.
    pub fn on_read(&mut self, data: &[u8]) -> (r: Result<(), ConnectionError>)
        requires
            old(self).wf(),
            data@.len() <= old(self).capacity() - old(self).pending().len(),
        ensures
            final(self).wf(),
            final(self).conf() == old(self).conf(),
            final(self).capacity() == old(self).capacity(),
            data@.len() == 0 ==> final(self).pending() == old(self).pending() && (if old(self).pending().len() == 0 {
                r matches Err(ConnectionError::Closed)
            } else {
                r matches Err(ConnectionError::UnexpectedEof)
            }),
            data@.len() > 0 ==> r is Ok && final(self).pending() == old(self).pending() + data@,
    {
        if data.len() == 0 {
            if self.read_pos == 0 {
                return Err(ConnectionError::Closed);
            } else {
                return Err(ConnectionError::UnexpectedEof);
            }
        }
        let ghost p0 = self.pending();
        let n = data.len();
        let start = self.read_pos;
        let mut k: usize = 0;
        while k < n
            invariant
                n == data@.len(),
                start == self.read_pos,
                start + n <= self.read_buf@.len(),
                self.read_buf@.len() <= isize::MAX,
                self.read_buf@.len() == old(self).read_buf@.len(),
                self.config == old(self).config,
                0 <= k <= n,
                self.read_buf@.subrange(0, start as int) == p0,
                forall|j: int| 0 <= j < k ==> #[trigger] self.read_buf@[start + j] == data@[j],
            decreases n - k,
        {
            self.read_buf.set(start + k, data[k]);
            proof {
                assert(self.read_buf@.subrange(0, start as int) =~= p0);
            }
            k = k + 1;
        }
        self.read_pos = start + n;
        proof {
            assert forall|i: int| 0 <= i < start + n implies #[trigger] self.pending()[i] == (p0 + data@)[i] by {
                if i < start {
                    assert(self.read_buf@.subrange(0, start as int)[i] == p0[i]);
                } else {
                    assert(self.read_buf@[start + (i - start)] == data@[i - start]);
                }
            }
            assert(self.pending() =~= p0 + data@);
        }
        Ok(())
    }
}

} // verus!
