//! Building a request and writing it out in HTTP/1.1 framing.

use vstd::prelude::*;
use vstd::array::array_as_slice;
use vstd::utf8::encode_utf8;
use crate::header::{header_block, header_views, lemma_header_block_push, Header, HeaderView};
use crate::target::{Target, TargetView};
use crate::text::{decimal_string, decimal_text};
use crate::wire::{COLON_SPACE, CRLF, HTTP_VERSION, SPACE};

verus! {

/// The token `GET`.
pub const GET: [u8; 3] = [0x47, 0x45, 0x54];

/// The token `POST`.
pub const POST: [u8; 4] = [0x50, 0x4f, 0x53, 0x54];

/// The request methods that can be sent.
#[derive(Debug, Clone, Copy, PartialEq, Eq, Structural)]
pub enum Method {
    Get,
    Post,
}

impl Method {
    /// The method's token on the wire.
    pub open spec fn token(self) -> Seq<u8> {
        match self {
            Method::Get => GET@,
            Method::Post => POST@,
        }
    }

    /// The method's token on the wire: `GET` or `POST`, in ASCII.
    pub fn as_bytes(&self) -> (bytes: &[u8])
        ensures
            bytes@ == self.token(),
    {
        match self {
            Self::Get => array_as_slice(&GET),
            Self::Post => array_as_slice(&POST),
        }
    }
}

/// The header that names the host a request is sent to.
pub open spec fn host_header(host: Seq<char>) -> HeaderView {
    HeaderView { name: "host"@, value: host }
}

/// The header that declares a body of `len` bytes.
pub open spec fn content_length_header(len: nat) -> HeaderView {
    HeaderView { name: "content-length"@, value: decimal_text(len) }
}

/// The header that declares a body to be JSON.
pub open spec fn json_content_type_header() -> HeaderView {
    HeaderView { name: "content-type"@, value: "application/json"@ }
}

/// A request as mathematics.
pub struct RequestView {
    pub target: TargetView,
    pub method: Method,
    pub headers: Seq<HeaderView>,
    pub body: Option<Seq<u8>>,
}

impl RequestView {
    /// The request that a builder starts from: no body, and a `host` header
    /// where the target names a host.
    pub open spec fn initial(method: Method, target: TargetView) -> RequestView {
        RequestView {
            target,
            method,
            headers: match target.host {
                Some(host) => seq![host_header(host)],
                None => Seq::empty(),
            },
            body: None,
        }
    }

    /// The same request with `header` added behind the headers it has.
    pub open spec fn with_header(self, header: HeaderView) -> RequestView {
        RequestView { headers: self.headers.push(header), ..self }
    }

    /// The same request with `payload` as its body, declared by a
    /// `content-length` and a `content-type` header added in that order.
    pub open spec fn with_json(self, payload: Seq<u8>) -> RequestView {
        RequestView {
            headers: self.headers.push(content_length_header(payload.len())).push(
                json_content_type_header(),
            ),
            body: Some(payload),
            ..self
        }
    }

    /// A request with a body has a `content-length` header that gives the
    /// body's length in bytes.
    pub open spec fn declares_body_length(self) -> bool {
        self.body matches Some(body) ==> exists|i: int|
            0 <= i < self.headers.len() && #[trigger] self.headers[i] == content_length_header(
                body.len(),
            )
    }

    /// The first line on the wire: the method's token, a space, the path
    /// with the query directly behind it, a space, the version and the line
    /// terminator.
    pub open spec fn request_line(self) -> Seq<u8> {
        self.method.token() + SPACE@ + encode_utf8(self.target.path) + (match self.target.query {
            Some(query) => encode_utf8(query),
            None => Seq::empty(),
        }) + SPACE@ + HTTP_VERSION@ + CRLF@
    }

    /// The request on the wire: the request line and one line for each
    /// header in order; then, only where there is a body, an empty line and
    /// the body's bytes.
    pub open spec fn wire(self) -> Seq<u8> {
        self.request_line() + header_block(self.headers) + (match self.body {
            Some(body) => CRLF@ + body,
            None => Seq::empty(),
        })
    }
}

/// A header added to a request leaves its body declared.
pub proof fn lemma_with_header_keeps_declaration(request: RequestView, header: HeaderView)
    requires
        request.declares_body_length(),
    ensures
        request.with_header(header).declares_body_length(),
{
    if let Some(body) = request.body {
        let i = choose|i: int|
            0 <= i < request.headers.len() && #[trigger] request.headers[i]
                == content_length_header(body.len());
        assert(request.with_header(header).headers[i] == content_length_header(body.len()));
    }
}

/// A payload attached to a request is declared.
pub proof fn lemma_with_json_declares(request: RequestView, payload: Seq<u8>)
    ensures
        request.with_json(payload).declares_body_length(),
{
    let i = request.headers.len() as int;
    assert(request.with_json(payload).headers[i] == content_length_header(payload.len()));
}

/// A request: where it goes, how, with which headers and which body.
#[derive(Debug)]
pub struct Request {
    target: Target,
    method: Method,
    body: Option<Vec<u8>>,
    headers: Vec<Header>,
}

impl View for Request {
    type V = RequestView;

    closed spec fn view(&self) -> RequestView {
        RequestView {
            target: self.target@,
            method: self.method,
            headers: header_views(self.headers@),
            body: match self.body {
                Some(body) => Some(body@),
                None => None,
            },
        }
    }
}

impl Request {
    #[verifier::type_invariant]
    spec fn body_is_declared(self) -> bool {
        self@.declares_body_length()
    }

    /// Starts a `GET` request to `target`.
    pub fn get(target: Target) -> (builder: RequestBuilder)
        ensures
            builder@ == RequestView::initial(Method::Get, target@),
    {
        RequestBuilder::new(Method::Get, target)
    }

    /// Starts a `POST` request to `target`.
    pub fn post(target: Target) -> (builder: RequestBuilder)
        ensures
            builder@ == RequestView::initial(Method::Post, target@),
    {
        RequestBuilder::new(Method::Post, target)
    }

    /// Writes the request behind what `out` holds, in HTTP/1.1 framing.
    pub fn write(&self, out: &mut Vec<u8>)
        ensures
            final(out)@ == old(out)@ + self@.wire(),
            self@.declares_body_length(),
    {
        proof {
            use_type_invariant(self);
        }
        out.extend_from_slice(self.method.as_bytes());
        out.extend_from_slice(array_as_slice(&SPACE));
        out.extend_from_slice(self.target.path.as_str().as_bytes());
        if let Some(query) = &self.target.query {
            out.extend_from_slice(query.as_str().as_bytes());
        }
        out.extend_from_slice(array_as_slice(&SPACE));
        out.extend_from_slice(array_as_slice(&HTTP_VERSION));
        out.extend_from_slice(array_as_slice(&CRLF));
        assert(out@ =~= old(out)@ + self@.request_line());

        let ghost views = header_views(self.headers@);
        let mut i: usize = 0;
        while i < self.headers.len()
            invariant
                i <= self.headers@.len(),
                views == header_views(self.headers@),
                out@ == old(out)@ + self@.request_line() + header_block(views.take(i as int)),
            decreases self.headers@.len() - i,
        {
            let header = &self.headers[i];
            let ghost before = out@;
            out.extend_from_slice(header.name.as_str().as_bytes());
            out.extend_from_slice(array_as_slice(&COLON_SPACE));
            out.extend_from_slice(header.value.as_str().as_bytes());
            out.extend_from_slice(array_as_slice(&CRLF));
            proof {
                assert(out@ =~= before + views[i as int].line());
                assert(views.take(i + 1) =~= views.take(i as int).push(views[i as int]));
                lemma_header_block_push(views.take(i as int), views[i as int]);
            }
            i += 1;
        }
        assert(views.take(i as int) =~= views);

        if let Some(body) = &self.body {
            out.extend_from_slice(array_as_slice(&CRLF));
            out.extend_from_slice(body.as_slice());
        }
        assert(out@ =~= old(out)@ + self@.wire());
    }
}

/// Puts a request together step by step.
pub struct RequestBuilder {
    request: Request,
}

impl View for RequestBuilder {
    type V = RequestView;

    closed spec fn view(&self) -> RequestView {
        self.request@
    }
}

impl RequestBuilder {
    /// Starts a request to `target`: no body yet, and a `host` header where
    /// the target names a host.
    pub fn new(method: Method, target: Target) -> (builder: Self)
        ensures
            builder@ == RequestView::initial(method, target@),
    {
        let mut headers: Vec<Header> = Vec::new();
        if let Some(host) = &target.host {
            headers.push(Header { name: "host".to_owned(), value: host.clone() });
        }
        proof {
            assert(header_views(headers@) =~= RequestView::initial(method, target@).headers);
        }
        Self { request: Request { method, body: None, headers, target } }
    }

    /// Adds a header behind those the request has.
    pub fn header(self, name: &str, value: &str) -> (builder: Self)
        ensures
            builder@ == self@.with_header(HeaderView { name: name@, value: value@ }),
    {
        proof {
            use_type_invariant(&self.request);
        }
        let Request { target, method, body, mut headers } = self.request;
        headers.push(Header { name: name.to_owned(), value: value.to_owned() });
        proof {
            let added = HeaderView { name: name@, value: value@ };
            lemma_with_header_keeps_declaration(self@, added);
            assert(header_views(headers@) =~= self@.headers.push(added));
        }
        Self { request: Request { target, method, body, headers } }
    }

    /// Makes `payload`, the bytes of a JSON document, the request's body,
    /// and adds the headers that declare it: `content-length` with the
    /// number of bytes in decimal, then `content-type: application/json`.
    pub fn json(self, payload: Vec<u8>) -> (builder: Self)
        ensures
            builder@ == self@.with_json(payload@),
    {
        let Request { target, method, body: _, mut headers } = self.request;
        let len = payload.len();
        headers.push(Header { name: "content-length".to_owned(), value: decimal_string(len) });
        headers.push(
            Header { name: "content-type".to_owned(), value: "application/json".to_owned() },
        );
        proof {
            lemma_with_json_declares(self@, payload@);
            assert(header_views(headers@) =~= self@.with_json(payload@).headers);
        }
        Self { request: Request { target, method, body: Some(payload), headers } }
    }

    /// The request as built.
    pub fn build(self) -> (request: Request)
        ensures
            request@ == self@,
            request@.declares_body_length(),
    {
        proof {
            use_type_invariant(&self.request);
        }
        self.request
    }
}

} // verus!
