//! The row assembler: slots, the open field, and the rows emitted so far.

use vstd::prelude::*;
use crate::bytes::{field_tag, is_field_tag, is_row_tag};
use crate::error::{ErrorKind, ParseError};
use crate::event::{
    attributes_view, resolve_field, steps_view, text_view, Event, EventView, Step, StepView,
    TagAttribute, Target,
};
use crate::model::{
    initial, resolved_row, rows_of, run, slot_value, step, unset_slots, well_formed, ModeView,
    RowView, StateView,
};
use crate::schema::Schema;

verus! {

/// The strings of a row.
pub open spec fn row_view(row: Vec<String>) -> RowView {
    row@.map_values(|s: String| s@)
}

/// The rows of a list of rows.
pub open spec fn rows_view(rows: Vec<Vec<String>>) -> Seq<RowView> {
    rows@.map_values(|row: Vec<String>| row_view(row))
}

/// The value of a parse's outcome.
pub open spec fn outcome_view(outcome: Result<Vec<Vec<String>>, ParseError>) -> Result<
    Seq<RowView>,
    ParseError,
> {
    match outcome {
        Ok(rows) => Ok(rows_view(rows)),
        Err(error) => Err(error),
    }
}

/// The values of a list of slots.
pub open spec fn slots_view(slots: Vec<Option<String>>) -> Seq<Option<Seq<char>>> {
    slots@.map_values(|slot: Option<String>| text_view(slot))
}

/// Which field, if any, is open.
#[derive(Clone, Copy, Debug, PartialEq, Eq, Structural)]
pub enum Mode {
    /// No field is open.
    Idle,
    /// A field that the schema knows is open, and text goes to this slot.
    InField(usize),
    /// A field that the schema does not know is open, and text is dropped.
    InUnknownField,
}

impl View for Mode {
    type V = ModeView;

    open spec fn view(&self) -> ModeView {
        match self {
            Mode::Idle => ModeView::Idle,
            Mode::InField(i) => ModeView::InField(*i as int),
            Mode::InUnknownField => ModeView::InUnknownField,
        }
    }
}

/// Whether a method's result and its effect on the state are those of
/// the transition `expected`: on success the state is the transition's,
/// on failure the error is the transition's and the state is untouched.
pub open spec fn follows(
    result: Result<(), ParseError>,
    before: StateView,
    after: StateView,
    expected: Result<StateView, ParseError>,
) -> bool {
    match expected {
        Ok(next) => result is Ok && after == next,
        Err(error) => result == Err::<(), ParseError>(error) && after == before,
    }
}

/// `n` slots, none of them set.
fn unset(n: usize) -> (slots: Vec<Option<String>>)
    ensures
        slots_view(slots) == unset_slots(n as nat),
{
    let mut slots: Vec<Option<String>> = Vec::new();
    let mut i: usize = 0;
    while i < n
        invariant
            i <= n,
            slots@.len() == i,
            forall|k: int| 0 <= k < i ==> slots@[k] is None,
        decreases n - i,
    {
        slots.push(None);
        i += 1;
    }
    assert(slots_view(slots) =~= unset_slots(n as nat));
    slots
}

/// The row that the slots resolve to: each slot's text, or the empty
/// string where it is unset.
fn resolve_slots(slots: &Vec<Option<String>>) -> (row: Vec<String>)
    ensures
        row_view(row) == resolved_row(slots_view(*slots)),
{
    let mut row: Vec<String> = Vec::new();
    let mut i: usize = 0;
    while i < slots.len()
        invariant
            i <= slots.len(),
            row@.len() == i,
            forall|k: int| 0 <= k < i ==> row@[k]@ == slot_value(text_view(slots@[k])),
        decreases slots.len() - i,
    {
        match &slots[i] {
            Some(text) => row.push(text.clone()),
            None => row.push(String::new()),
        }
        i += 1;
    }
    assert(row_view(row) =~= resolved_row(slots_view(*slots)));
    row
}

/// Builds rows from the events of one document, against one schema.
pub struct RowAssembler<'a> {
    schema: &'a Schema,
    slots: Vec<Option<String>>,
    mode: Mode,
    rows: Vec<Vec<String>>,
}

impl<'a> View for RowAssembler<'a> {
    type V = StateView;

    closed spec fn view(&self) -> StateView {
        StateView { slots: slots_view(self.slots), mode: self.mode@, rows: rows_view(self.rows) }
    }
}

impl<'a> RowAssembler<'a> {
    /// The schema that fields are resolved against.
    pub closed spec fn schema_view(&self) -> Seq<Seq<u8>> {
        self.schema@
    }

    /// The invariant of the type: the state is well formed for the schema.
    pub open spec fn wf(&self) -> bool {
        well_formed(self.schema_view(), self@)
    }

    /// An assembler at the start of a document.
    pub fn new(schema: &'a Schema) -> (assembler: Self)
        ensures
            assembler.schema_view() == schema@,
            assembler@ == initial(schema@),
            assembler.wf(),
    {
        let slots = unset(schema.len());
        let rows: Vec<Vec<String>> = Vec::new();
        assert(rows_view(rows) =~= Seq::empty());
        RowAssembler { schema, slots, mode: Mode::Idle, rows }
    }

    /// Which field is open.
    pub fn mode(&self) -> (mode: Mode)
        ensures
            mode@ == self@.mode,
    {
        self.mode
    }

    /// Whether text is kept: a field that the schema knows is open.
    pub fn expects_text(&self) -> (yes: bool)
        ensures
            yes == (self@.mode is InField),
    {
        match self.mode {
            Mode::InField(_) => true,
            _ => false,
        }
    }

    /// Number of rows emitted so far.
    pub fn row_count(&self) -> (n: usize)
        ensures
            n == self@.rows.len(),
    {
        self.rows.len()
    }

    /// The start of a `field` element with the given attributes.
    pub fn start_field(&mut self, attributes: &Vec<TagAttribute>, offset: usize) -> (result: Result<
        (),
        ParseError,
    >)
        requires
            old(self).wf(),
        ensures
            final(self).schema_view() == old(self).schema_view(),
            final(self).wf(),
            follows(
                result,
                old(self)@,
                final(self)@,
                step(
                    old(self).schema_view(),
                    old(self)@,
                    StepView {
                        event: EventView::Start {
                            name: field_tag(),
                            attributes: attributes_view(*attributes),
                        },
                        offset,
                    },
                ),
            ),
    {
        match resolve_field(self.schema, attributes) {
            Target::Slot(i) => {
                self.mode = Mode::InField(i);
                Ok(())
            },
            Target::Unknown => {
                self.mode = Mode::InUnknownField;
                Ok(())
            },
            Target::Broken => Err(ParseError { offset, kind: ErrorKind::MalformedMarkup }),
        }
    }

    /// Text, decoded, or `None` where it cannot be decoded.
    pub fn text(&mut self, decoded: Option<String>, offset: usize) -> (result: Result<
        (),
        ParseError,
    >)
        requires
            old(self).wf(),
        ensures
            final(self).schema_view() == old(self).schema_view(),
            final(self).wf(),
            follows(
                result,
                old(self)@,
                final(self)@,
                step(
                    old(self).schema_view(),
                    old(self)@,
                    StepView { event: EventView::Text { decoded: text_view(decoded) }, offset },
                ),
            ),
    {
        match self.mode {
            Mode::InField(i) => match decoded {
                Some(text) => {
                    let ghost before = slots_view(self.slots);
                    self.slots.set(i, Some(text));
                    assert(slots_view(self.slots) =~= before.update(i as int, Some(text@)));
                    Ok(())
                },
                None => Err(ParseError { offset, kind: ErrorKind::InvalidText }),
            },
            _ => Ok(()),
        }
    }

    /// The end of a `field` element.
    pub fn end_field(&mut self)
        requires
            old(self).wf(),
        ensures
            final(self).schema_view() == old(self).schema_view(),
            final(self).wf(),
            final(self)@ == (StateView { mode: ModeView::Idle, ..old(self)@ }),
    {
        self.mode = Mode::Idle;
    }

    /// The end of a `row` element: emits the row and unsets every slot.
    pub fn end_row(&mut self)
        requires
            old(self).wf(),
        ensures
            final(self).schema_view() == old(self).schema_view(),
            final(self).wf(),
            final(self)@ == (StateView {
                slots: unset_slots(old(self)@.slots.len()),
                mode: ModeView::Idle,
                rows: old(self)@.rows.push(resolved_row(old(self)@.slots)),
            }),
    {
        let row = resolve_slots(&self.slots);
        let ghost before = rows_view(self.rows);
        self.rows.push(row);
        assert(rows_view(self.rows) =~= before.push(row_view(row)));
        self.slots = unset(self.slots.len());
        self.mode = Mode::Idle;
    }

    /// One event, whatever it is.
    pub fn feed(&mut self, event: &Step) -> (result: Result<(), ParseError>)
        requires
            old(self).wf(),
        ensures
            final(self).schema_view() == old(self).schema_view(),
            final(self).wf(),
            follows(
                result,
                old(self)@,
                final(self)@,
                step(old(self).schema_view(), old(self)@, event@),
            ),
    {
        match &event.event {
            Event::Start { name, attributes } => {
                if is_field_tag(name.as_slice()) {
                    self.start_field(attributes, event.offset)
                } else {
                    Ok(())
                }
            },
            Event::End { name } => {
                if is_row_tag(name.as_slice()) {
                    self.end_row();
                } else if is_field_tag(name.as_slice()) {
                    self.end_field();
                }
                Ok(())
            },
            Event::Text { decoded } => {
                let owned = match decoded {
                    Some(text) => Some(text.clone()),
                    None => None,
                };
                self.text(owned, event.offset)
            },
            Event::Other => Ok(()),
            Event::Eof => Ok(()),
            Event::Malformed => Err(
                ParseError { offset: event.offset, kind: ErrorKind::MalformedMarkup },
            ),
        }
    }

    /// The rows emitted so far.
    pub fn into_rows(self) -> (rows: Vec<Vec<String>>)
        ensures
            rows_view(rows) == self@.rows,
    {
        self.rows
    }
}

/// Whether an event ends the input.
pub fn is_eof(event: &Event) -> (yes: bool)
    ensures
        yes == (event@ is Eof),
{
    match event {
        Event::Eof => true,
        _ => false,
    }
}

/// Assembles the rows of a document that is given as its events.
///
/// Returns the rows in document order, one per `row` end tag before the
/// end of the input, or the first failure and no row.
pub fn assemble(schema: &Schema, steps: &Vec<Step>) -> (outcome: Result<
    Vec<Vec<String>>,
    ParseError,
>)
    ensures
        outcome_view(outcome) == rows_of(schema@, steps_view(*steps)),
{
    let mut assembler = RowAssembler::new(schema);
    let ghost all = steps_view(*steps);
    let mut i: usize = 0;
    assert(all.skip(0) =~= all);
    while i < steps.len()
        invariant
            i <= steps.len(),
            all == steps_view(*steps),
            assembler.wf(),
            assembler.schema_view() == schema@,
            run(schema@, assembler@, all.skip(i as int)) == rows_of(schema@, all),
        decreases steps.len() - i,
    {
        let ghost rest = all.skip(i as int);
        assert(rest.len() > 0 && rest[0] == steps[i as int]@);
        assert(rest.skip(1) =~= all.skip(i + 1));
        if is_eof(&steps[i].event) {
            return Ok(assembler.into_rows());
        }
        match assembler.feed(&steps[i]) {
            Ok(()) => {},
            Err(error) => {
                return Err(error);
            },
        }
        i += 1;
    }
    assert(all.skip(i as int).len() == 0);
    Ok(assembler.into_rows())
}

} // verus!
