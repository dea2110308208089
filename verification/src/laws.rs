//! What holds of encoding and decoding, on every input.

use vstd::prelude::*;
use vstd::utf8::{
    encode_utf8, encode_utf8_decode_utf8, encode_utf8_valid_utf8, is_ascii_chars,
    is_ascii_chars_encode_utf8,
};
use crate::error::Error;
use crate::header::{header_block, lemma_header_block_front, lemma_header_block_push, HeaderView};
use crate::request::{content_length_header, json_content_type_header, RequestView};
use crate::response::{
    decimal_value, decode, decode_headers, is_digit, status_code, unsigned_part, with_head,
    with_line, ResponseView,
};
use crate::text::{decimal_text, digit_char, lossy_text};
use crate::wire::{
    contains, lemma_split_at_first_joined, lemma_split_at_first_pieces, occurs_at,
    split_at_first, COLON_SPACE, CRLF, HTTP_VERSION, SPACE,
};

verus! {

/// A header whose line can be told from its neighbours: the name holds no
/// `": "` and does not begin with a line terminator, and the value holds no
/// line terminator.
pub open spec fn framed(header: HeaderView) -> bool {
    &&& !contains(encode_utf8(header.name), COLON_SPACE@)
    &&& !CRLF@.is_prefix_of(encode_utf8(header.name))
    &&& !contains(encode_utf8(header.value), CRLF@)
}

/// Every header of the list is [`framed`].
pub open spec fn all_framed(headers: Seq<HeaderView>) -> bool {
    forall|i: int| 0 <= i < headers.len() ==> framed(#[trigger] headers[i])
}

/// A status line: the version, a space, `token`, a space, `reason` and the
/// line terminator.
pub open spec fn status_line(token: Seq<u8>, reason: Seq<u8>) -> Seq<u8> {
    HTTP_VERSION@ + SPACE@ + token + SPACE@ + reason + CRLF@
}

/// A request without a body is its request line and its header lines and
/// nothing more: with headers it ends with the line of the last one, and
/// unless that header's value itself ends in a line terminator, no empty
/// line stands at its end.
pub proof fn lemma_request_without_body_ends_with_last_header(request: RequestView)
    requires
        request.body is None,
    ensures
        request.wire() == request.request_line() + header_block(request.headers),
        CRLF@.is_suffix_of(request.wire()),
        request.headers.len() > 0 ==> request.headers.last().line().is_suffix_of(request.wire()),
        request.headers.len() > 0 && !CRLF@.is_suffix_of(encode_utf8(request.headers.last().value))
            ==> !(CRLF@ + CRLF@).is_suffix_of(request.wire()),
{
    let wire = request.wire();
    assert(wire =~= request.request_line() + header_block(request.headers));
    if request.headers.len() > 0 {
        let last = request.headers.last();
        let line = last.line();
        let value = encode_utf8(last.value);
        let n = line.len() as int;
        assert(wire =~= request.request_line() + header_block(request.headers.drop_last()) + line);
        assert(wire.subrange(wire.len() - n, wire.len() as int) =~= line);
        assert(wire.subrange(wire.len() - 2, wire.len() as int) =~= CRLF@);
        if (CRLF@ + CRLF@).is_suffix_of(wire) {
            let tail = wire.subrange(wire.len() - 4, wire.len() as int);
            assert(tail =~= CRLF@ + CRLF@);
            assert(tail[0] == wire[wire.len() - 4]);
            assert(tail[1] == wire[wire.len() - 3]);
            assert(wire[wire.len() - 4] == line[n - 4]);
            assert(wire[wire.len() - 3] == line[n - 3]);
            if value.len() >= 2 {
                assert(value.subrange(value.len() - 2, value.len() as int) =~= CRLF@);
            }
        }
    } else {
        assert(wire =~= request.request_line());
        assert(wire.subrange(wire.len() - 2, wire.len() as int) =~= CRLF@);
    }
}

/// A number written in decimal is a run of ASCII digits, one byte for each
/// character, and reads back as the number.
pub proof fn lemma_decimal_text_reads_back(n: nat)
    ensures
        is_ascii_chars(decimal_text(n)),
        encode_utf8(decimal_text(n)).len() == decimal_text(n).len(),
        decimal_text(n).len() > 0,
        forall|i: int|
            0 <= i < decimal_text(n).len() ==> is_digit(#[trigger] encode_utf8(decimal_text(n))[i]),
        decimal_value(encode_utf8(decimal_text(n))) == n,
    decreases n,
{
    let text = decimal_text(n);
    let last = digit_char((n % 10) as int);
    assert(last as u8 == 0x30 + n % 10);
    if n < 10 {
        assert(text =~= seq![last]);
        assert(is_ascii_chars(text));
        is_ascii_chars_encode_utf8(text);
        let bytes = encode_utf8(text);
        assert(bytes[0] == text[0] as u8);
        assert(bytes.drop_last() =~= Seq::<u8>::empty());
        assert(decimal_value(bytes.drop_last()) == 0);
    } else {
        let front = decimal_text(n / 10);
        lemma_decimal_text_reads_back(n / 10);
        assert(text =~= front.push(last));
        assert(is_ascii_chars(text));
        is_ascii_chars_encode_utf8(text);
        is_ascii_chars_encode_utf8(front);
        let bytes = encode_utf8(text);
        assert(bytes.drop_last() =~= encode_utf8(front)) by {
            assert forall|i: int| 0 <= i < front.len() implies bytes.drop_last()[i] == encode_utf8(
                front,
            )[i] by {
                assert(bytes[i] == text[i] as u8);
                assert(encode_utf8(front)[i] == front[i] as u8);
            }
        }
        assert(bytes.last() == text[text.len() - 1] as u8);
        assert forall|i: int| 0 <= i < text.len() implies is_digit(#[trigger] bytes[i]) by {
            if i < front.len() {
                assert(bytes[i] == bytes.drop_last()[i]);
                assert(is_digit(encode_utf8(front)[i]));
            }
        }
    }
}

/// A request given a payload declares the payload's length in a
/// `content-length` header, whose value reads back as the number of bytes in
/// the payload, and ends with the `content-type` line, one empty line and
/// the payload's bytes as they were given.
pub proof fn lemma_json_request_carries_payload(request: RequestView, payload: Seq<u8>)
    ensures
        ({
            let sent = request.with_json(payload);
            &&& sent.body == Some(payload)
            &&& sent.headers[sent.headers.len() - 2] == content_length_header(payload.len())
            &&& decimal_value(encode_utf8(content_length_header(payload.len()).value))
                == payload.len()
            &&& sent.headers.last() == json_content_type_header()
            &&& sent.wire() == request.request_line() + header_block(request.headers)
                + content_length_header(payload.len()).line() + json_content_type_header().line()
                + CRLF@ + payload
            &&& (json_content_type_header().line() + CRLF@ + payload).is_suffix_of(sent.wire())
        }),
{
    let sent = request.with_json(payload);
    lemma_decimal_text_reads_back(payload.len());
    let declared = request.headers.push(content_length_header(payload.len()));
    lemma_header_block_push(request.headers, content_length_header(payload.len()));
    lemma_header_block_push(declared, json_content_type_header());
    let wire = sent.wire();
    let head = request.request_line() + header_block(request.headers) + content_length_header(
        payload.len(),
    ).line();
    let tail = json_content_type_header().line() + CRLF@ + payload;
    assert(wire =~= head + tail);
    assert(wire.subrange(wire.len() - tail.len(), wire.len() as int) =~= tail);
    assert(wire =~= request.request_line() + header_block(request.headers)
        + content_length_header(payload.len()).line() + json_content_type_header().line() + CRLF@
        + payload);
}

/// A status code written in decimal is a status token that holds no space
/// and reads back as that code.
pub proof fn lemma_written_status_reads_back(status: u16)
    ensures
        !contains(encode_utf8(decimal_text(status as nat)), SPACE@),
        status_code(encode_utf8(decimal_text(status as nat))) == Some(status),
{
    let token = encode_utf8(decimal_text(status as nat));
    lemma_decimal_text_reads_back(status as nat);
    assert(is_digit(token[0]));
    assert(unsigned_part(token) == token);
    assert forall|at: int| !occurs_at(token, SPACE@, at) by {
        if occurs_at(token, SPACE@, at) {
            assert(token.skip(at).subrange(0, 1) =~= SPACE@);
            assert(token.skip(at).subrange(0, 1)[0] == token[at]);
            assert(is_digit(token[at]));
        }
    }
}

/// What a header block fails with is a malformed format.
pub proof fn lemma_header_block_fails_malformed(rest: Seq<u8>)
    ensures
        decode_headers(rest) matches Err(e) ==> e == Error::MalformedFormat,
    decreases rest.len(),
{
    if !CRLF@.is_prefix_of(rest) && rest.len() > 0 {
        if let Some((_, after_name)) = split_at_first(rest, COLON_SPACE@) {
            if let Some((_, next)) = split_at_first(after_name, CRLF@) {
                lemma_split_at_first_pieces(rest, COLON_SPACE@);
                lemma_split_at_first_pieces(after_name, CRLF@);
                lemma_header_block_fails_malformed(next);
            }
        }
    }
}

/// A buffer is refused as an unsupported version exactly when it does not
/// begin with `HTTP/1.1`; whatever else fails is a malformed format.
pub proof fn lemma_unsupported_version_iff_other_prefix(bytes: Seq<u8>)
    ensures
        decode(bytes) == Err::<ResponseView, Error>(Error::UnsupportedHttpVersion)
            <==> !HTTP_VERSION@.is_prefix_of(bytes),
        decode(bytes) is Err && HTTP_VERSION@.is_prefix_of(bytes) ==> decode(bytes) == Err::<
            ResponseView,
            Error,
        >(Error::MalformedFormat),
{
    if HTTP_VERSION@.is_prefix_of(bytes) && SPACE@.is_prefix_of(
        bytes.skip(HTTP_VERSION@.len() as int),
    ) {
        let after_version = bytes.skip(HTTP_VERSION@.len() as int).skip(SPACE@.len() as int);
        if let Some((token, after_status)) = split_at_first(after_version, SPACE@) {
            if status_code(token) is Some {
                if let Some((_, after_line)) = split_at_first(after_status, CRLF@) {
                    lemma_header_block_fails_malformed(after_line);
                }
            }
        }
    }
}

/// A status line whose status token writes no status code is malformed,
/// whatever follows it.
pub proof fn lemma_bad_status_is_malformed(token: Seq<u8>, rest: Seq<u8>)
    requires
        !contains(token, SPACE@),
        status_code(token) is None,
    ensures
        decode(HTTP_VERSION@ + SPACE@ + token + SPACE@ + rest) == Err::<ResponseView, Error>(
            Error::MalformedFormat,
        ),
{
    let bytes = HTTP_VERSION@ + SPACE@ + token + SPACE@ + rest;
    lemma_status_line_head(token, rest);
}

/// Behind the version and one space, a status token free of spaces is found
/// whole, and what follows its space is left.
proof fn lemma_status_line_head(token: Seq<u8>, rest: Seq<u8>)
    requires
        !contains(token, SPACE@),
    ensures
        ({
            let bytes = HTTP_VERSION@ + SPACE@ + token + SPACE@ + rest;
            &&& HTTP_VERSION@.is_prefix_of(bytes)
            &&& SPACE@.is_prefix_of(bytes.skip(HTTP_VERSION@.len() as int))
            &&& split_at_first(
                bytes.skip(HTTP_VERSION@.len() as int).skip(SPACE@.len() as int),
                SPACE@,
            ) == Some((token, rest))
        }),
{
    let bytes = HTTP_VERSION@ + SPACE@ + token + SPACE@ + rest;
    assert(bytes.subrange(0, HTTP_VERSION@.len() as int) =~= HTTP_VERSION@);
    assert(bytes.skip(HTTP_VERSION@.len() as int).subrange(0, SPACE@.len() as int) =~= SPACE@);
    assert(bytes.skip(HTTP_VERSION@.len() as int).skip(SPACE@.len() as int) =~= token + SPACE@
        + rest);
    lemma_split_at_first_joined(token, SPACE@, rest);
}

/// The line of a framed header, at the head of a block, decodes to that
/// header, and decoding goes on behind the line.
proof fn lemma_decode_header_line(header: HeaderView, rest: Seq<u8>)
    requires
        framed(header),
    ensures
        decode_headers(header.line() + rest) == with_line(header, decode_headers(rest)),
{
    let name = encode_utf8(header.name);
    let value = encode_utf8(header.value);
    let block = header.line() + rest;
    assert(block =~= name + COLON_SPACE@ + (value + CRLF@ + rest));
    assert(block.len() > 0);
    assert(!CRLF@.is_prefix_of(block)) by {
        if CRLF@.is_prefix_of(block) {
            assert(block.subrange(0, 2) =~= CRLF@);
            assert(block.subrange(0, 2)[0] == block[0]);
            assert(block.subrange(0, 2)[1] == block[1]);
            if name.len() >= 2 {
                assert(name.subrange(0, 2) =~= CRLF@);
            }
        }
    }
    lemma_split_at_first_joined(name, COLON_SPACE@, value + CRLF@ + rest);
    lemma_split_at_first_joined(value, CRLF@, rest);
    encode_utf8_valid_utf8(header.name);
    encode_utf8_decode_utf8(header.name);
    encode_utf8_valid_utf8(header.value);
    encode_utf8_decode_utf8(header.value);
    assert(lossy_text(name) == header.name);
    assert(lossy_text(value) == header.value);
}

/// The lines of framed headers, at the head of a block, decode to those
/// headers in their order, and decoding goes on behind the lines.
proof fn lemma_decode_header_block(
    status: u16,
    read: Seq<HeaderView>,
    headers: Seq<HeaderView>,
    rest: Seq<u8>,
)
    requires
        all_framed(headers),
    ensures
        with_head(status, read, decode_headers(header_block(headers) + rest)) == with_head(
            status,
            read + headers,
            decode_headers(rest),
        ),
    decreases headers.len(),
{
    if headers.len() == 0 {
        assert(header_block(headers) + rest =~= rest);
        assert(read + headers =~= read);
    } else {
        let first = headers.first();
        let others = headers.drop_first();
        assert(headers =~= seq![first] + others);
        lemma_header_block_front(first, others);
        assert(header_block(headers) + rest =~= first.line() + (header_block(others) + rest));
        lemma_decode_header_line(first, header_block(others) + rest);
        let tail = decode_headers(header_block(others) + rest);
        if let Ok((found, _)) = tail {
            assert(read + (seq![first] + found) =~= read.push(first) + found);
        }
        assert(with_head(status, read, with_line(first, tail)) == with_head(
            status,
            read.push(first),
            tail,
        ));
        assert(all_framed(others)) by {
            assert forall|i: int| 0 <= i < others.len() implies framed(#[trigger] others[i]) by {
                assert(others[i] == headers[i + 1]);
            }
        }
        lemma_decode_header_block(status, read.push(first), others, rest);
        assert(read.push(first) + others =~= read + headers);
    }
}

/// What stands behind a well-formed status line is decoded as the header
/// block, under the status that the line gives.
proof fn lemma_decode_status_line(token: Seq<u8>, reason: Seq<u8>, rest: Seq<u8>)
    requires
        !contains(token, SPACE@),
        status_code(token) is Some,
        !contains(reason, CRLF@),
    ensures
        decode(status_line(token, reason) + rest) == with_head(
            status_code(token)->0,
            Seq::empty(),
            decode_headers(rest),
        ),
{
    let bytes = status_line(token, reason) + rest;
    assert(bytes =~= HTTP_VERSION@ + SPACE@ + token + SPACE@ + (reason + CRLF@ + rest));
    lemma_status_line_head(token, reason + CRLF@ + rest);
    lemma_split_at_first_joined(reason, CRLF@, rest);
}

/// A response that ends right behind its header lines, with no empty line
/// after them, decodes to its status and those headers in their order, and
/// has no body.
pub proof fn lemma_decode_without_terminator(
    token: Seq<u8>,
    reason: Seq<u8>,
    headers: Seq<HeaderView>,
)
    requires
        !contains(token, SPACE@),
        status_code(token) is Some,
        !contains(reason, CRLF@),
        all_framed(headers),
    ensures
        decode(status_line(token, reason) + header_block(headers)) == Ok::<ResponseView, Error>(
            ResponseView { status: status_code(token)->0, headers, body: None },
        ),
{
    let status = status_code(token)->0;
    lemma_decode_status_line(token, reason, header_block(headers));
    lemma_decode_header_block(status, Seq::empty(), headers, Seq::empty());
    assert(header_block(headers) + Seq::<u8>::empty() =~= header_block(headers));
    assert(Seq::<HeaderView>::empty() + headers =~= headers);
    assert(headers + Seq::<HeaderView>::empty() =~= headers);
}

/// Decoding what the encoder writes for a list of headers gives the list
/// back, every header in its place: a response made of a status line, the
/// header block as requests encode it, an empty line and a body decodes to
/// that status, those headers in their order, and that body.
pub proof fn lemma_decode_preserves_header_order(
    token: Seq<u8>,
    reason: Seq<u8>,
    headers: Seq<HeaderView>,
    body: Seq<u8>,
)
    requires
        !contains(token, SPACE@),
        status_code(token) is Some,
        !contains(reason, CRLF@),
        all_framed(headers),
    ensures
        decode(status_line(token, reason) + header_block(headers) + CRLF@ + body) == Ok::<
            ResponseView,
            Error,
        >(ResponseView { status: status_code(token)->0, headers, body: Some(body) }),
{
    let status = status_code(token)->0;
    let bytes = status_line(token, reason) + header_block(headers) + CRLF@ + body;
    assert(bytes =~= status_line(token, reason) + (header_block(headers) + (CRLF@ + body)));
    lemma_decode_status_line(token, reason, header_block(headers) + (CRLF@ + body));
    lemma_decode_header_block(status, Seq::empty(), headers, CRLF@ + body);
    assert((CRLF@ + body).subrange(0, CRLF@.len() as int) =~= CRLF@);
    assert((CRLF@ + body).skip(CRLF@.len() as int) =~= body);
    assert(Seq::<HeaderView>::empty() + headers =~= headers);
    assert(headers + Seq::<HeaderView>::empty() =~= headers);
}

/// What the encoder writes behind a request line, set behind a status line,
/// the decoder reads back: the headers of the request, every one in its
/// place, and the body of the request, or none where it has none.
pub proof fn lemma_decode_reads_back_encoded_request(
    token: Seq<u8>,
    reason: Seq<u8>,
    request: RequestView,
)
    requires
        !contains(token, SPACE@),
        status_code(token) is Some,
        !contains(reason, CRLF@),
        all_framed(request.headers),
    ensures
        decode(
            status_line(token, reason) + request.wire().skip(request.request_line().len() as int),
        ) == Ok::<ResponseView, Error>(
            ResponseView {
                status: status_code(token)->0,
                headers: request.headers,
                body: request.body,
            },
        ),
{
    let written = request.wire().skip(request.request_line().len() as int);
    match request.body {
        Some(body) => {
            assert(written =~= header_block(request.headers) + CRLF@ + body);
            assert(status_line(token, reason) + written =~= status_line(token, reason)
                + header_block(request.headers) + CRLF@ + body);
            lemma_decode_preserves_header_order(token, reason, request.headers, body);
        },
        None => {
            assert(written =~= header_block(request.headers));
            lemma_decode_without_terminator(token, reason, request.headers);
        },
    }
}

} // verus!
