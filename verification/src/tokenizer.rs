//! The XML tokenizer, `quick_xml`, and what this crate takes on trust
//! about it. Nothing in this file is proved: each contract states what
//! `quick_xml`'s source shows of the function that it wraps.

use vstd::prelude::*;
use quick_xml::events::attributes::Attributes;
use quick_xml::events::{BytesText, Event};
use quick_xml::Reader;
use crate::event::{TagAttribute, TagAttributeView};

verus! {

/// A token as `quick_xml` hands it out, copied out of the read buffer.
#[derive(Clone, Debug, PartialEq, Eq)]
pub enum Token {
    /// A start tag: its name, and its whole content, name included.
    Start { name: Vec<u8>, content: Vec<u8> },
    /// An end tag, with its name.
    End { name: Vec<u8> },
    /// Character data, still escaped, trimmed of surrounding whitespace.
    Text { raw: Vec<u8> },
    /// An empty-element tag, a comment, a CDATA section, a declaration,
    /// a processing instruction or a doctype.
    Other,
    /// The end of the input.
    Eof,
    /// The tokenizer failed.
    Malformed,
}

/// The mathematical value of a [`Token`].
pub enum TokenView {
    Start { name: Seq<u8>, content: Seq<u8> },
    End { name: Seq<u8> },
    Text { raw: Seq<u8> },
    Other,
    Eof,
    Malformed,
}

impl View for Token {
    type V = TokenView;

    open spec fn view(&self) -> TokenView {
        match self {
            Token::Start { name, content } => TokenView::Start { name: name@, content: content@ },
            Token::End { name } => TokenView::End { name: name@ },
            Token::Text { raw } => TokenView::Text { raw: raw@ },
            Token::Other => TokenView::Other,
            Token::Eof => TokenView::Eof,
            Token::Malformed => TokenView::Malformed,
        }
    }
}

/// A token and the byte offset that the reader reports after it.
pub struct ReadView {
    pub token: TokenView,
    pub offset: usize,
}

/// Whether a token is the last one that a reader is asked for.
pub open spec fn is_last(token: TokenView) -> bool {
    token is Eof || token is Malformed
}

/// A `quick_xml::Reader` over an in-memory document, set to trim text.
/// Nothing of the reader is visible to proofs but what `pending` says.
#[verifier::external_body]
pub struct EventReader<'a> {
    inner: Reader<&'a [u8]>,
}

/// Declares `quick_xml`'s attribute iterator, as an opaque type.
#[verifier::external_type_specification]
#[verifier::external_body]
pub struct ExAttributes<'a>(Attributes<'a>);

/// Declares the type that `quick_xml`'s attribute iterator yields on
/// success, as an opaque type. The iterator's declaration needs it.
#[verifier::external_type_specification]
#[verifier::external_body]
pub struct ExAttribute<'a>(quick_xml::events::attributes::Attribute<'a>);

/// Declares the type that `quick_xml`'s attribute iterator yields on
/// failure, as an opaque type. The iterator's declaration needs it.
#[verifier::external_type_specification]
#[verifier::external_body]
pub struct ExXmlError(quick_xml::Error);

/// What `Reader::read_event` returns, call after call, on a fresh reader
/// over `text` with text trimming on, each token with what
/// `Reader::buffer_position` returns after it: up to and including the
/// first end of input or failure.
pub uninterp spec fn tokens_of(text: Seq<char>) -> Seq<ReadView>;

/// What a reader has yet to hand out: the results of `read_event` from
/// its present state on, each with the position reported after it, up to
/// and including the first end of input or failure.
pub uninterp spec fn pending(reader: EventReader) -> Seq<ReadView>;

/// The items that `Attributes::new(content, start)` yields, in order,
/// until it yields `None`.
pub uninterp spec fn attributes_in(content: Seq<u8>, start: nat) -> Seq<TagAttributeView>;

/// The items that an attribute iterator has yet to yield.
pub uninterp spec fn remaining(attributes: Attributes) -> Seq<TagAttributeView>;

/// What `BytesText::unescape_and_decode` returns for escaped text `raw`:
/// the text, or `None` where it fails.
pub uninterp spec fn decoded(raw: Seq<u8>) -> Option<Seq<char>>;

/// `Reader::from_str`, then `Reader::trim_text(true)`.
///
/// Claims that the new reader has `tokens_of(xml)` to hand out.
#[verifier::external_body]
pub(crate) fn open_reader<'a>(xml: &'a str) -> (reader: EventReader<'a>)
    ensures
        pending(reader) == tokens_of(xml@),
{
    let mut inner = Reader::from_str(xml);
    inner.trim_text(true);
    EventReader { inner }
}

/// `Reader::read_event` into an empty buffer, then
/// `Reader::buffer_position`.
///
/// Claims that something is pending (on a finite input `read_event`
/// comes to the end of input or to a failure, and from then on reports
/// the end of input), that the result is the first pending token with
/// its offset, and that, unless it is the end of input or a failure, the
/// tokens after it are what is pending next. Nothing is claimed of the
/// buffer.
#[verifier::external_body]
pub(crate) fn next_token(reader: &mut EventReader, buffer: &mut Vec<u8>) -> (read: (Token, usize))
    requires
        old(buffer)@.len() == 0,
    ensures
        pending(*old(reader)).len() > 0,
        read.0@ == pending(*old(reader))[0].token,
        read.1 == pending(*old(reader))[0].offset,
        !is_last(read.0@) ==> pending(*final(reader)) == pending(*old(reader)).skip(1),
{
    let token = match reader.inner.read_event(buffer) {
        Ok(Event::Start(e)) => Token::Start { name: e.name().to_vec(), content: e.to_vec() },
        Ok(Event::End(e)) => Token::End { name: e.name().to_vec() },
        Ok(Event::Text(e)) => Token::Text { raw: e.escaped().to_vec() },
        Ok(Event::Eof) => Token::Eof,
        Ok(Event::Empty(_) | Event::Comment(_) | Event::CData(_)) => Token::Other,
        Ok(Event::Decl(_) | Event::PI(_) | Event::DocType(_)) => Token::Other,
        Err(_) => Token::Malformed,
    };
    (token, reader.inner.buffer_position())
}

/// `BytesText::unescape_and_decode`, on escaped text of this reader's
/// document.
///
/// Claims that the result is `decoded(raw)`: the call unescapes and
/// decodes the bytes it is given and consults nothing else.
#[verifier::external_body]
pub(crate) fn decode_text(reader: &EventReader, raw: &[u8]) -> (text: Option<String>)
    ensures
        crate::event::text_view(text) == decoded(raw@),
{
    BytesText::from_escaped(raw).unescape_and_decode(&reader.inner).ok()
}

/// `Attributes::new`: the attributes of a start tag's `content`, from
/// byte `start` on.
#[verifier::external_body]
pub(crate) fn open_attributes<'a>(content: &'a [u8], start: usize) -> (attributes: Attributes<'a>)
    ensures
        remaining(attributes) == attributes_in(content@, start as nat),
{
    Attributes::new(content, start)
}

/// `Attributes::next`.
///
/// Claims that `None` comes exactly when nothing remains, and that an
/// item is the first that remains, the rest remaining after it.
#[verifier::external_body]
pub(crate) fn next_attribute(attributes: &mut Attributes) -> (item: Option<TagAttribute>)
    ensures
        match item {
            None => remaining(*old(attributes)).len() == 0,
            Some(attribute) => {
                &&& remaining(*old(attributes)).len() > 0
                &&& attribute@ == remaining(*old(attributes))[0]
                &&& remaining(*final(attributes)) == remaining(*old(attributes)).skip(1)
            },
        },
{
    match attributes.next() {
        None => None,
        Some(Ok(a)) => Some(TagAttribute::Pair { key: a.key.to_vec(), value: a.value.to_vec() }),
        Some(Err(_)) => Some(TagAttribute::Malformed),
    }
}

} // verus!
