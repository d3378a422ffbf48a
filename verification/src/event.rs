//! The events the row assembler consumes: what a tokenizer has read, with
//! attributes parsed and text decoded.

use vstd::prelude::*;
use crate::bytes::{is_name_key, name_key};
use crate::schema::{slot_of, Schema};

verus! {

/// One item of a start tag's attribute list, as the tokenizer yields it.
#[derive(Clone, Debug, PartialEq, Eq)]
pub enum TagAttribute {
    /// A readable attribute, key and value as raw bytes.
    Pair { key: Vec<u8>, value: Vec<u8> },
    /// An attribute that the tokenizer could not read.
    Malformed,
}

/// The mathematical value of a [`TagAttribute`].
pub enum TagAttributeView {
    Pair { key: Seq<u8>, value: Seq<u8> },
    Malformed,
}

impl View for TagAttribute {
    type V = TagAttributeView;

    open spec fn view(&self) -> TagAttributeView {
        match self {
            TagAttribute::Pair { key, value } => TagAttributeView::Pair { key: key@, value: value@ },
            TagAttribute::Malformed => TagAttributeView::Malformed,
        }
    }
}

/// The values of a list of attributes, in order.
pub open spec fn attributes_view(attributes: Vec<TagAttribute>) -> Seq<TagAttributeView> {
    attributes@.map_values(|a: TagAttribute| a@)
}

/// One event of the token stream.
#[derive(Clone, Debug, PartialEq, Eq)]
pub enum Event {
    /// A start tag, with its name and its attributes in document order.
    Start { name: Vec<u8>, attributes: Vec<TagAttribute> },
    /// An end tag, with its name.
    End { name: Vec<u8> },
    /// Character data: the decoded text, or `None` where it cannot be
    /// unescaped and decoded.
    Text { decoded: Option<String> },
    /// Anything else that is well-formed: an empty-element tag, a comment,
    /// a CDATA section, a declaration, a processing instruction, a doctype.
    Other,
    /// The end of the input.
    Eof,
    /// A token that the tokenizer could not read.
    Malformed,
}

/// The mathematical value of an [`Event`].
pub enum EventView {
    Start { name: Seq<u8>, attributes: Seq<TagAttributeView> },
    End { name: Seq<u8> },
    Text { decoded: Option<Seq<char>> },
    Other,
    Eof,
    Malformed,
}

/// The value of an optional string.
pub open spec fn text_view(text: Option<String>) -> Option<Seq<char>> {
    match text {
        Some(s) => Some(s@),
        None => None,
    }
}

impl View for Event {
    type V = EventView;

    open spec fn view(&self) -> EventView {
        match self {
            Event::Start { name, attributes } => EventView::Start {
                name: name@,
                attributes: attributes_view(*attributes),
            },
            Event::End { name } => EventView::End { name: name@ },
            Event::Text { decoded } => EventView::Text { decoded: text_view(*decoded) },
            Event::Other => EventView::Other,
            Event::Eof => EventView::Eof,
            Event::Malformed => EventView::Malformed,
        }
    }
}

/// An event together with the byte offset that the tokenizer reports
/// once it has read it.
#[derive(Clone, Debug, PartialEq, Eq)]
pub struct Step {
    pub event: Event,
    pub offset: usize,
}

/// The mathematical value of a [`Step`].
pub struct StepView {
    pub event: EventView,
    pub offset: usize,
}

impl View for Step {
    type V = StepView;

    open spec fn view(&self) -> StepView {
        StepView { event: self.event@, offset: self.offset }
    }
}

/// The values of a list of steps, in order.
pub open spec fn steps_view(steps: Vec<Step>) -> Seq<StepView> {
    steps@.map_values(|s: Step| s@)
}

/// What a `field` start tag's attributes say about the field's name.
pub enum NameLookup {
    /// The value of the first attribute whose key is `name`.
    Found(Seq<u8>),
    /// No attribute has the key `name`.
    Absent,
    /// An unreadable attribute comes before any attribute with the key `name`.
    Broken,
}

/// Walks the attributes in order and stops at the first one that is
/// unreadable or has the key `name`. Attributes after that one are not
/// looked at.
pub open spec fn name_lookup(attributes: Seq<TagAttributeView>) -> NameLookup
    decreases attributes.len(),
{
    if attributes.len() == 0 {
        NameLookup::Absent
    } else {
        match attributes[0] {
            TagAttributeView::Malformed => NameLookup::Broken,
            TagAttributeView::Pair { key, value } => if key == name_key() {
                NameLookup::Found(value)
            } else {
                name_lookup(attributes.skip(1))
            },
        }
    }
}

/// Where the text of a `field` element goes (mathematical form).
pub enum TargetView {
    /// The field is known: its text goes to this slot of the schema.
    Slot(int),
    /// The field has no name or a name that the schema does not hold.
    Unknown,
    /// The tag cannot be read up to its name.
    Broken,
}

/// The target of a `field` start tag with the given attributes.
pub open spec fn field_target(schema: Seq<Seq<u8>>, attributes: Seq<TagAttributeView>) -> TargetView {
    match name_lookup(attributes) {
        NameLookup::Found(name) => match slot_of(schema, name) {
            Some(i) => TargetView::Slot(i),
            None => TargetView::Unknown,
        },
        NameLookup::Absent => TargetView::Unknown,
        NameLookup::Broken => TargetView::Broken,
    }
}

/// Where the text of a `field` element goes.
#[derive(Clone, Copy, Debug, PartialEq, Eq, Structural)]
pub enum Target {
    /// The field is known: its text goes to this slot of the schema.
    Slot(usize),
    /// The field has no name or a name that the schema does not hold.
    Unknown,
    /// The tag cannot be read up to its name.
    Broken,
}

impl View for Target {
    type V = TargetView;

    open spec fn view(&self) -> TargetView {
        match self {
            Target::Slot(i) => TargetView::Slot(*i as int),
            Target::Unknown => TargetView::Unknown,
            Target::Broken => TargetView::Broken,
        }
    }
}

/// Resolves the attributes of a `field` start tag against a schema.
pub fn resolve_field(schema: &Schema, attributes: &Vec<TagAttribute>) -> (target: Target)
    ensures
        target@ == field_target(schema@, attributes_view(*attributes)),
        target matches Target::Slot(i) ==> i < schema@.len(),
{
    let ghost all = attributes_view(*attributes);
    let mut i: usize = 0;
    assert(all.skip(0) =~= all);
    while i < attributes.len()
        invariant
            i <= attributes.len(),
            all == attributes_view(*attributes),
            name_lookup(all) == name_lookup(all.skip(i as int)),
        decreases attributes.len() - i,
    {
        let ghost rest = all.skip(i as int);
        assert(rest.len() > 0 && rest[0] == attributes[i as int]@);
        assert(rest.skip(1) =~= all.skip(i + 1));
        match &attributes[i] {
            TagAttribute::Malformed => {
                return Target::Broken;
            },
            TagAttribute::Pair { key, value } => {
                if is_name_key(key.as_slice()) {
                    proof {
                        crate::schema::lemma_slot_of(schema@, value@);
                    }
                    return match schema.slot_of(value.as_slice()) {
                        Some(slot) => Target::Slot(slot),
                        None => Target::Unknown,
                    };
                }
            },
        }
        i += 1;
    }
    assert(all.skip(i as int).len() == 0);
    Target::Unknown
}

} // verus!
