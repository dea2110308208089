//! Decoding a buffer that holds one HTTP/1.1 response.

use vstd::prelude::*;
use vstd::array::array_as_slice;
use vstd::slice::{slice_subrange, slice_to_vec};
use crate::error::Error;
use crate::header::{header_views, Header, HeaderView};
use crate::text::{lossy_text, text_of};
use crate::wire::{
    first_occurs_at, lemma_first_occurrence_absent, lemma_first_occurrence_found,
    lemma_split_at_first_pieces, occurs_at, split_at_first, COLON_SPACE, CRLF, HTTP_VERSION, SPACE,
};

verus! {

/// A response as mathematics.
pub struct ResponseView {
    pub status: u16,
    pub headers: Seq<HeaderView>,
    pub body: Option<Seq<u8>>,
}

/// Whether `byte` is an ASCII decimal digit.
pub open spec fn is_digit(byte: u8) -> bool {
    0x30 <= byte <= 0x39
}

/// The number that a run of ASCII digits writes in decimal.
pub open spec fn decimal_value(digits: Seq<u8>) -> nat
    decreases digits.len(),
{
    if digits.len() == 0 {
        0
    } else {
        decimal_value(digits.drop_last()) * 10 + (digits.last() - 0x30) as nat
    }
}

/// `token` without the `+` that may stand at its head.
pub open spec fn unsigned_part(token: Seq<u8>) -> Seq<u8> {
    if token.len() > 0 && token[0] == 0x2b {
        token.skip(1)
    } else {
        token
    }
}

/// The status code that `token` writes: an optional `+`, then one or more
/// ASCII digits whose decimal value fits in sixteen bits. Any other token
/// writes none.
pub open spec fn status_code(token: Seq<u8>) -> Option<u16> {
    let digits = unsigned_part(token);
    if digits.len() > 0 && (forall|i: int| 0 <= i < digits.len() ==> is_digit(#[trigger] digits[i]))
        && decimal_value(digits) <= u16::MAX {
        Some(decimal_value(digits) as u16)
    } else {
        None
    }
}

/// A header line at the head of a block, followed by `tail`, the decoding of
/// what stands behind the line.
pub open spec fn with_line(
    header: HeaderView,
    tail: Result<(Seq<HeaderView>, Option<Seq<u8>>), Error>,
) -> Result<(Seq<HeaderView>, Option<Seq<u8>>), Error> {
    match tail {
        Err(e) => Err(e),
        Ok((headers, body)) => Ok((seq![header] + headers, body)),
    }
}

/// What the header block at the head of `rest` decodes to: the headers in
/// wire order, and the body.
///
/// An empty line ends the block, and all that follows it is the body. A
/// buffer that ends where a header line would begin ends the block too, and
/// leaves no body. Any other line has a name up to the first `": "` and a
/// value up to the first line terminator behind that; a line that lacks
/// either is malformed.
pub open spec fn decode_headers(rest: Seq<u8>) -> Result<(Seq<HeaderView>, Option<Seq<u8>>), Error>
    decreases rest.len(),
{
    if CRLF@.is_prefix_of(rest) {
        Ok((Seq::empty(), Some(rest.skip(CRLF@.len() as int))))
    } else if rest.len() == 0 {
        Ok((Seq::empty(), None))
    } else {
        match split_at_first(rest, COLON_SPACE@) {
            None => Err(Error::MalformedFormat),
            Some((name, after_name)) => match split_at_first(after_name, CRLF@) {
                None => Err(Error::MalformedFormat),
                Some((value, next)) => with_line(
                    HeaderView { name: lossy_text(name), value: lossy_text(value) },
                    decode_headers(next),
                ),
            },
        }
    }
}

/// The response made of a status, the headers read so far, and what the
/// rest of the header block decodes to.
pub open spec fn with_head(
    status: u16,
    read: Seq<HeaderView>,
    rest: Result<(Seq<HeaderView>, Option<Seq<u8>>), Error>,
) -> Result<ResponseView, Error> {
    match rest {
        Err(e) => Err(e),
        Ok((headers, body)) => Ok(ResponseView { status, headers: read + headers, body }),
    }
}

/// What a buffer decodes to.
///
/// The buffer begins with `HTTP/1.1`, or its version is unsupported. Then
/// come one space, the status code up to the next space, and the reason
/// phrase up to the line terminator, which is dropped; then the header
/// block. A buffer that lacks one of these delimiters, or whose status code
/// is no sixteen-bit decimal number, is malformed.
pub open spec fn decode(bytes: Seq<u8>) -> Result<ResponseView, Error> {
    if !HTTP_VERSION@.is_prefix_of(bytes) {
        Err(Error::UnsupportedHttpVersion)
    } else if !SPACE@.is_prefix_of(bytes.skip(HTTP_VERSION@.len() as int)) {
        Err(Error::MalformedFormat)
    } else {
        let after_version = bytes.skip(HTTP_VERSION@.len() as int).skip(SPACE@.len() as int);
        match split_at_first(after_version, SPACE@) {
            None => Err(Error::MalformedFormat),
            Some((token, after_status)) => match status_code(token) {
                None => Err(Error::MalformedFormat),
                Some(status) => match split_at_first(after_status, CRLF@) {
                    None => Err(Error::MalformedFormat),
                    Some((_, after_line)) => with_head(
                        status,
                        Seq::empty(),
                        decode_headers(after_line),
                    ),
                },
            },
        }
    }
}

/// A prefix of a run of digits writes no larger a number than the run.
proof fn lemma_decimal_value_prefix(digits: Seq<u8>, k: int)
    requires
        0 <= k <= digits.len(),
    ensures
        decimal_value(digits.take(k)) <= decimal_value(digits),
    decreases digits.len(),
{
    if k == digits.len() {
        assert(digits.take(k) =~= digits);
    } else {
        assert(digits.drop_last().take(k) =~= digits.take(k));
        lemma_decimal_value_prefix(digits.drop_last(), k);
    }
}

/// The status code that `token` writes, if it writes one.
pub fn parse_status(token: &[u8]) -> (status: Option<u16>)
    ensures
        status == status_code(token@),
{
    let start: usize = if token.len() > 0 && token[0] == 0x2b {
        1
    } else {
        0
    };
    let ghost digits = unsigned_part(token@);
    assert(digits =~= token@.skip(start as int));
    if start == token.len() {
        return None;
    }
    let mut value: u32 = 0;
    let mut i: usize = start;
    while i < token.len()
        invariant
            start <= i <= token@.len(),
            digits == unsigned_part(token@),
            digits == token@.skip(start as int),
            forall|k: int| 0 <= k < i - start ==> is_digit(#[trigger] digits[k]),
            value == decimal_value(digits.take(i - start)),
            value <= u16::MAX,
        decreases token@.len() - i,
    {
        let byte = token[i];
        if byte < 0x30 || byte > 0x39 {
            assert(!is_digit(digits[i - start]));
            return None;
        }
        proof {
            assert(digits.take(i - start + 1).drop_last() =~= digits.take(i - start));
            assert(digits.take(i - start + 1).last() == byte);
        }
        value = value * 10 + (byte - 0x30) as u32;
        if value > 0xffff {
            proof {
                lemma_decimal_value_prefix(digits, i - start + 1);
            }
            return None;
        }
        i += 1;
    }
    assert(digits.take(i - start) =~= digits);
    Some(value as u16)
}

/// A header read ahead of a tail stands behind the headers read before it.
proof fn lemma_with_head_step(
    status: u16,
    read: Seq<HeaderView>,
    header: HeaderView,
    tail: Result<(Seq<HeaderView>, Option<Seq<u8>>), Error>,
)
    ensures
        with_head(status, read, with_line(header, tail)) == with_head(
            status,
            read.push(header),
            tail,
        ),
{
    if let Ok((headers, _)) = tail {
        assert(read + (seq![header] + headers) =~= read.push(header) + headers);
    }
}

/// Nothing read ahead leaves the headers read before as they are.
proof fn lemma_with_head_end(status: u16, read: Seq<HeaderView>, body: Option<Seq<u8>>)
    ensures
        with_head(status, read, Ok((Seq::empty(), body))) == Ok::<ResponseView, Error>(
            ResponseView { status, headers: read, body },
        ),
{
    assert(read + Seq::<HeaderView>::empty() =~= read);
}

/// Whether `bytes` begins with `seq`.
fn starts_with(bytes: &[u8], seq: &[u8]) -> (found: bool)
    ensures
        found == seq@.is_prefix_of(bytes@),
{
    if seq.len() > bytes.len() {
        return false;
    }
    let mut i: usize = 0;
    while i < seq.len()
        invariant
            i <= seq@.len() <= bytes@.len(),
            forall|k: int| 0 <= k < i ==> seq@[k] == bytes@[k],
        decreases seq@.len() - i,
    {
        if seq[i] != bytes[i] {
            return false;
        }
        i += 1;
    }
    assert(seq@ =~= bytes@.subrange(0, seq@.len() as int));
    true
}

/// Steps over `seq` at the head of `bytes` and hands back the rest; fails
/// with [`Error::MalformedFormat`] where `bytes` does not begin with `seq`.
pub fn expect_skip<'a>(bytes: &'a [u8], seq: &[u8]) -> (r: Result<&'a [u8], Error>)
    ensures
        seq@.is_prefix_of(bytes@) ==> r is Ok && r->Ok_0@ == bytes@.skip(seq@.len() as int),
        !seq@.is_prefix_of(bytes@) ==> r == Err::<&[u8], Error>(Error::MalformedFormat),
{
    if !starts_with(bytes, seq) {
        return Err(Error::MalformedFormat);
    }
    Ok(slice_subrange(bytes, seq.len(), bytes.len()))
}

/// Cuts `bytes` at the first occurrence of `seq`. On success the pair holds
/// what follows the occurrence, then what stood before it; neither holds
/// `seq` itself. Fails with [`Error::MalformedFormat`] where `seq` occurs
/// nowhere in `bytes`.
pub fn extract_until<'a>(bytes: &'a [u8], seq: &[u8]) -> (r: Result<(&'a [u8], &'a [u8]), Error>)
    ensures
        match split_at_first(bytes@, seq@) {
            Some((before, after)) => r is Ok && r->Ok_0.0@ == after && r->Ok_0.1@ == before,
            None => r == Err::<(&[u8], &[u8]), Error>(Error::MalformedFormat),
        },
{
    let mut i: usize = 0;
    loop
        invariant
            i <= bytes@.len(),
            forall|j: int| 0 <= j < i ==> !occurs_at(bytes@, seq@, j),
        decreases bytes@.len() - i,
    {
        let tail = slice_subrange(bytes, i, bytes.len());
        if starts_with(tail, seq) {
            let extracted = slice_subrange(bytes, 0, i);
            let rest = slice_subrange(tail, seq.len(), tail.len());
            proof {
                assert(first_occurs_at(bytes@, seq@, i as int));
                lemma_first_occurrence_found(bytes@, seq@, i as int);
                assert(rest@ =~= bytes@.skip(i + seq@.len()));
            }
            return Ok((rest, extracted));
        }
        if i == bytes.len() {
            proof {
                lemma_first_occurrence_absent(bytes@, seq@);
            }
            return Err(Error::MalformedFormat);
        }
        i += 1;
    }
}

/// Steps over the literal `HTTP/1.1` at the head of `bytes`; fails with
/// [`Error::UnsupportedHttpVersion`] where `bytes` begins with anything else.
pub fn extract_http_version(bytes: &[u8]) -> (r: Result<&[u8], Error>)
    ensures
        HTTP_VERSION@.is_prefix_of(bytes@) ==> r is Ok && r->Ok_0@ == bytes@.skip(
            HTTP_VERSION@.len() as int,
        ),
        !HTTP_VERSION@.is_prefix_of(bytes@) ==> r == Err::<&[u8], Error>(
            Error::UnsupportedHttpVersion,
        ),
{
    let version = array_as_slice(&HTTP_VERSION);
    if !starts_with(bytes, version) {
        return Err(Error::UnsupportedHttpVersion);
    }
    Ok(slice_subrange(bytes, version.len(), bytes.len()))
}

/// A decoded response: the status code, the headers in the order of the
/// wire, and the body as the bytes that came.
#[derive(Debug)]
pub struct Response {
    headers: Vec<Header>,
    status: u16,
    pub body: Option<Vec<u8>>,
}

impl View for Response {
    type V = ResponseView;

    closed spec fn view(&self) -> ResponseView {
        ResponseView {
            status: self.status,
            headers: header_views(self.headers@),
            body: match self.body {
                Some(body) => Some(body@),
                None => None,
            },
        }
    }
}

impl Response {
    /// The status code.
    pub fn status(&self) -> (status: u16)
        ensures
            status == self@.status,
    {
        self.status
    }

    /// The headers, in the order in which they stood on the wire.
    pub fn headers(&self) -> (headers: &Vec<Header>)
        ensures
            header_views(headers@) == self@.headers,
    {
        &self.headers
    }

    /// The body as the payload it carries: its bytes, or
    /// [`Error::ExpectedBody`] where the response has no body.
    pub fn json(self) -> (payload: Result<Vec<u8>, Error>)
        ensures
            match self@.body {
                Some(body) => payload is Ok && payload->Ok_0@ == body,
                None => payload == Err::<Vec<u8>, Error>(Error::ExpectedBody),
            },
    {
        match self.body {
            Some(body) => Ok(body),
            None => Err(Error::ExpectedBody),
        }
    }

    /// Decodes a buffer that holds one response.
    pub fn from_bytes(bytes: Vec<u8>) -> (r: Result<Self, Error>)
        ensures
            match decode(bytes@) {
                Ok(response) => r is Ok && r->Ok_0@ == response,
                Err(e) => r == Err::<Self, Error>(e),
            },
    {
        let slice = extract_http_version(bytes.as_slice())?;
        let slice = expect_skip(slice, array_as_slice(&SPACE))?;

        let (slice, token) = extract_until(slice, array_as_slice(&SPACE))?;
        let status = match parse_status(token) {
            Some(status) => status,
            None => {
                return Err(Error::MalformedFormat);
            },
        };

        // the reason phrase is not kept
        let (slice, _) = extract_until(slice, array_as_slice(&CRLF))?;

        let mut slice = slice;
        let mut headers: Vec<Header> = Vec::new();
        assert(header_views(headers@) =~= Seq::empty());

        loop
            invariant
                decode(bytes@) == with_head(
                    status,
                    header_views(headers@),
                    decode_headers(slice@),
                ),
            ensures
                CRLF@.is_prefix_of(slice@),
            decreases slice@.len(),
        {
            if starts_with(slice, array_as_slice(&CRLF)) {
                break ;
            }
            if slice.len() == 0 {
                proof {
                    lemma_with_head_end(status, header_views(headers@), None);
                }
                return Ok(Response { headers, status, body: None });
            }
            let (after_name, name) = extract_until(slice, array_as_slice(&COLON_SPACE))?;
            let (next, value) = extract_until(after_name, array_as_slice(&CRLF))?;
            let ghost read = header_views(headers@);
            let ghost added = HeaderView { name: lossy_text(name@), value: lossy_text(value@) };
            headers.push(Header { name: text_of(name), value: text_of(value) });
            proof {
                assert(header_views(headers@) =~= read.push(added));
                assert(decode_headers(slice@) == with_line(added, decode_headers(next@)));
                lemma_with_head_step(status, read, added, decode_headers(next@));
                lemma_split_at_first_pieces(slice@, COLON_SPACE@);
                lemma_split_at_first_pieces(after_name@, CRLF@);
            }
            slice = next;
        }

        let slice = expect_skip(slice, array_as_slice(&CRLF))?;
        proof {
            lemma_with_head_end(status, header_views(headers@), Some(slice@));
        }
        let body = slice_to_vec(slice);
        Ok(Response { headers, status, body: Some(body) })
    }
}

} // verus!
