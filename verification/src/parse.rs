//! From the text of a dump to its rows.

use vstd::prelude::*;
use crate::assembler::{outcome_view, RowAssembler};
use crate::bytes::{is_field_tag, is_row_tag};
use crate::error::{ErrorKind, ParseError};
use crate::event::{attributes_view, EventView, StepView, TagAttribute};
use crate::model::{rows_of, run};
use crate::schema::Schema;
use crate::tokenizer::{
    attributes_in, decode_text, decoded, next_attribute, next_token, open_attributes, open_reader,
    pending, remaining, tokens_of, ReadView, Token, TokenView,
};

verus! {

/// The event that a token stands for: a start tag with its attributes
/// parsed, text with its content decoded, every other token as it is.
pub open spec fn resolve(read: ReadView) -> StepView {
    StepView {
        event: match read.token {
            TokenView::Start { name, content } => EventView::Start {
                name,
                attributes: attributes_in(content, name.len()),
            },
            TokenView::End { name } => EventView::End { name },
            TokenView::Text { raw } => EventView::Text { decoded: decoded(raw) },
            TokenView::Other => EventView::Other,
            TokenView::Eof => EventView::Eof,
            TokenView::Malformed => EventView::Malformed,
        },
        offset: read.offset,
    }
}

/// The events that a run of tokens stands for.
pub open spec fn resolve_all(reads: Seq<ReadView>) -> Seq<StepView> {
    reads.map_values(|read: ReadView| resolve(read))
}

/// The events of a document: what the tokenizer reads from its text.
pub open spec fn document_steps(xml: Seq<char>) -> Seq<StepView> {
    resolve_all(tokens_of(xml))
}

/// The attributes of a start tag, all of them, in document order.
/// `content` is the tag's content and `start` the length of its name.
pub fn read_attributes(content: &[u8], start: usize) -> (attributes: Vec<TagAttribute>)
    ensures
        attributes_view(attributes) == attributes_in(content@, start as nat),
{
    let mut iterator = open_attributes(content, start);
    let mut attributes: Vec<TagAttribute> = Vec::new();
    assert(attributes_view(attributes) =~= Seq::empty());
    loop
        invariant
            attributes_view(attributes) + remaining(iterator) == attributes_in(
                content@,
                start as nat,
            ),
        decreases remaining(iterator).len(),
    {
        let ghost before = attributes_view(attributes);
        let ghost rest = remaining(iterator);
        match next_attribute(&mut iterator) {
            None => {
                assert(before + rest =~= before);
                return attributes;
            },
            Some(attribute) => {
                attributes.push(attribute);
                assert(attributes_view(attributes) =~= before.push(attribute@));
                assert(before.push(rest[0]) + rest.skip(1) =~= before + rest);
            },
        }
    }
}

/// Parses a `mysqldump --xml` document into rows.
///
/// `schema` names the columns that are wanted. Each `row` element of the
/// document gives one row, in document order; each row holds one string
/// per schema field, in schema order: the text of the row's `field`
/// element of that name, or the empty string where the row has none.
/// Fields that the schema does not name are skipped.
///
/// Fails, with no rows, where the tokenizer cannot read the document,
/// where a `field` tag holds an unreadable attribute before its name,
/// or where the text of a wanted field cannot be decoded.
pub fn mysqldump_quick_xml(schema: &Schema, xml: &str) -> (outcome: Result<
    Vec<Vec<String>>,
    ParseError,
>)
    ensures
        outcome_view(outcome) == rows_of(schema@, document_steps(xml@)),
{
    let mut reader = open_reader(xml);
    let mut buffer: Vec<u8> = Vec::new();
    let mut assembler = RowAssembler::new(schema);
    loop
        invariant
            buffer@.len() == 0,
            assembler.wf(),
            assembler.schema_view() == schema@,
            run(schema@, assembler@, resolve_all(pending(reader))) == rows_of(
                schema@,
                document_steps(xml@),
            ),
        decreases pending(reader).len(),
    {
        let ghost reads = pending(reader);
        let (token, offset) = next_token(&mut reader, &mut buffer);
        assert(resolve_all(reads).len() > 0 && resolve_all(reads)[0] == resolve(reads[0]));
        assert(resolve_all(reads).skip(1) =~= resolve_all(reads.skip(1)));
        match token {
            Token::Start { name, content } => {
                if is_field_tag(name.as_slice()) {
                    let attributes = read_attributes(content.as_slice(), name.len());
                    match assembler.start_field(&attributes, offset) {
                        Ok(()) => {},
                        Err(error) => {
                            return Err(error);
                        },
                    }
                }
            },
            Token::End { name } => {
                if is_row_tag(name.as_slice()) {
                    assembler.end_row();
                } else if is_field_tag(name.as_slice()) {
                    assembler.end_field();
                }
            },
            Token::Text { raw } => {
                if assembler.expects_text() {
                    let text = decode_text(&reader, raw.as_slice());
                    match assembler.text(text, offset) {
                        Ok(()) => {},
                        Err(error) => {
                            return Err(error);
                        },
                    }
                }
            },
            Token::Other => {},
            Token::Eof => {
                return Ok(assembler.into_rows());
            },
            Token::Malformed => {
                return Err(ParseError { offset, kind: ErrorKind::MalformedMarkup });
            },
        }
        buffer.clear();
    }
}

} // verus!
