//! Headers, and the lines they make on the wire.

use vstd::prelude::*;
use vstd::utf8::encode_utf8;
use crate::wire::{COLON_SPACE, CRLF};

verus! {

/// A `name: value` pair. A list of headers keeps the order in which they
/// were added, and the same name may stand in it more than once.
#[derive(Debug, PartialEq, Eq)]
pub struct Header {
    pub name: String,
    pub value: String,
}

/// A header as mathematics: its two texts.
pub struct HeaderView {
    pub name: Seq<char>,
    pub value: Seq<char>,
}

impl View for Header {
    type V = HeaderView;

    open spec fn view(&self) -> HeaderView {
        HeaderView { name: self.name@, value: self.value@ }
    }
}

impl HeaderView {
    /// The header's line on the wire: the name, `": "`, the value and the
    /// line terminator, the texts in UTF-8.
    pub open spec fn line(self) -> Seq<u8> {
        encode_utf8(self.name) + COLON_SPACE@ + encode_utf8(self.value) + CRLF@
    }
}

/// The views of a list of headers, in the same order.
pub open spec fn header_views(headers: Seq<Header>) -> Seq<HeaderView> {
    headers.map_values(|h: Header| h@)
}

/// The lines of `headers`, one after the other in the order of the list.
pub open spec fn header_block(headers: Seq<HeaderView>) -> Seq<u8>
    decreases headers.len(),
{
    if headers.len() == 0 {
        Seq::empty()
    } else {
        header_block(headers.drop_last()) + headers.last().line()
    }
}

/// Adding a header at the end adds its line at the end of the block.
pub proof fn lemma_header_block_push(headers: Seq<HeaderView>, header: HeaderView)
    ensures
        header_block(headers.push(header)) == header_block(headers) + header.line(),
{
    assert(headers.push(header).drop_last() =~= headers);
}

/// The block of a list that starts with `header` starts with its line.
pub proof fn lemma_header_block_front(header: HeaderView, rest: Seq<HeaderView>)
    ensures
        header_block(seq![header] + rest) == header.line() + header_block(rest),
    decreases rest.len(),
{
    if rest.len() == 0 {
        assert(seq![header] + rest =~= Seq::<HeaderView>::empty().push(header));
        lemma_header_block_push(Seq::empty(), header);
        assert(header_block(seq![header] + rest) =~= header.line() + header_block(rest));
    } else {
        let all = seq![header] + rest;
        assert(all.drop_last() =~= seq![header] + rest.drop_last());
        lemma_header_block_front(header, rest.drop_last());
        assert(header_block(all) =~= header.line() + header_block(rest));
    }
}

} // verus!
