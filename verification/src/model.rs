//! The row assembler as a mathematical state machine over events.

use vstd::prelude::*;
use crate::bytes::{field_tag, row_tag};
use crate::error::{ErrorKind, ParseError};
use crate::event::{field_target, name_lookup, EventView, NameLookup, StepView, TargetView};
use crate::schema::lemma_slot_of;

verus! {

/// Which field, if any, is open.
pub enum ModeView {
    /// No field is open.
    Idle,
    /// A field that the schema knows is open, and text goes to this slot.
    InField(int),
    /// A field that the schema does not know is open, and text is dropped.
    InUnknownField,
}

/// A row: one string per schema field, in schema order.
pub type RowView = Seq<Seq<char>>;

/// The state of the assembler between two events.
pub struct StateView {
    /// One slot per schema field: `None` until text was seen for it in
    /// the row under construction.
    pub slots: Seq<Option<Seq<char>>>,
    /// Which field is open.
    pub mode: ModeView,
    /// The rows emitted so far, in document order.
    pub rows: Seq<RowView>,
}

/// `n` slots, none of them set.
pub open spec fn unset_slots(n: nat) -> Seq<Option<Seq<char>>> {
    Seq::new(n, |i: int| None)
}

/// The state before the first event: no row, no slot set, no field open.
pub open spec fn initial(schema: Seq<Seq<u8>>) -> StateView {
    StateView { slots: unset_slots(schema.len()), mode: ModeView::Idle, rows: Seq::empty() }
}

/// The value a slot resolves to when its row ends: what it holds, or the
/// empty string.
pub open spec fn slot_value(slot: Option<Seq<char>>) -> Seq<char> {
    match slot {
        Some(text) => text,
        None => Seq::empty(),
    }
}

/// The row that a set of slots resolves to.
pub open spec fn resolved_row(slots: Seq<Option<Seq<char>>>) -> RowView {
    slots.map_values(|slot: Option<Seq<char>>| slot_value(slot))
}

/// A state is well formed for a schema when it has one slot per field and
/// the open field, if known, is one of them.
pub open spec fn well_formed(schema: Seq<Seq<u8>>, state: StateView) -> bool {
    &&& state.slots.len() == schema.len()
    &&& forall|r: int| 0 <= r < state.rows.len() ==> (#[trigger] state.rows[r]).len() == schema.len()
    &&& (state.mode matches ModeView::InField(i) ==> 0 <= i < schema.len())
}

/// A malformed-markup failure at `offset`.
pub open spec fn malformed_at(offset: usize) -> ParseError {
    ParseError { offset, kind: ErrorKind::MalformedMarkup }
}

/// An invalid-text failure at `offset`.
pub open spec fn invalid_text_at(offset: usize) -> ParseError {
    ParseError { offset, kind: ErrorKind::InvalidText }
}

/// One transition: the state after `step`, or the failure it causes.
///
/// - The start of a `field` opens the slot its `name` attribute resolves
///   to; without a name, or with one that the schema does not hold, the
///   field is open and unknown. An unreadable attribute before the name
///   is fatal.
/// - Text overwrites the open slot, if a known field is open, and is
///   fatal there if it cannot be decoded; elsewhere it has no effect.
/// - The end of a `field` closes the field; the slot keeps its value.
/// - The end of a `row` emits the resolved row and unsets every slot.
/// - An unreadable token is fatal.
/// - Every other event leaves the state as it is.
pub open spec fn step(schema: Seq<Seq<u8>>, state: StateView, step: StepView) -> Result<
    StateView,
    ParseError,
> {
    match step.event {
        EventView::Start { name, attributes } => if name == field_tag() {
            match field_target(schema, attributes) {
                TargetView::Slot(i) => Ok(StateView { mode: ModeView::InField(i), ..state }),
                TargetView::Unknown => Ok(StateView { mode: ModeView::InUnknownField, ..state }),
                TargetView::Broken => Err(malformed_at(step.offset)),
            }
        } else {
            Ok(state)
        },
        EventView::End { name } => if name == row_tag() {
            Ok(
                StateView {
                    slots: unset_slots(state.slots.len()),
                    mode: ModeView::Idle,
                    rows: state.rows.push(resolved_row(state.slots)),
                },
            )
        } else if name == field_tag() {
            Ok(StateView { mode: ModeView::Idle, ..state })
        } else {
            Ok(state)
        },
        EventView::Text { decoded } => match state.mode {
            ModeView::InField(i) => match decoded {
                Some(text) => Ok(StateView { slots: state.slots.update(i, Some(text)), ..state }),
                None => Err(invalid_text_at(step.offset)),
            },
            _ => Ok(state),
        },
        EventView::Other => Ok(state),
        EventView::Eof => Ok(state),
        EventView::Malformed => Err(malformed_at(step.offset)),
    }
}

/// A transition keeps a well-formed state well formed.
pub proof fn lemma_step_well_formed(schema: Seq<Seq<u8>>, state: StateView, event: StepView)
    requires
        well_formed(schema, state),
    ensures
        step(schema, state, event) matches Ok(next) ==> well_formed(schema, next),
{
    if let EventView::Start { name, attributes } = event.event {
        if let NameLookup::Found(value) = name_lookup(attributes) {
            lemma_slot_of(schema, value);
        }
    }
}

/// The state after every one of `steps`, or the first failure among them.
pub open spec fn state_after(schema: Seq<Seq<u8>>, state: StateView, steps: Seq<StepView>) -> Result<
    StateView,
    ParseError,
>
    decreases steps.len(),
{
    if steps.len() == 0 {
        Ok(state)
    } else {
        match step(schema, state, steps[0]) {
            Ok(next) => state_after(schema, next, steps.skip(1)),
            Err(error) => Err(error),
        }
    }
}

/// The outcome of feeding `steps` to the assembler in `state`: the rows
/// emitted up to the end of the input, or the first failure. The input
/// ends at the first `Eof`, or where the steps run out. A row that is
/// still open there is not emitted.
pub open spec fn run(schema: Seq<Seq<u8>>, state: StateView, steps: Seq<StepView>) -> Result<
    Seq<RowView>,
    ParseError,
>
    decreases steps.len(),
{
    if steps.len() == 0 || steps[0].event is Eof {
        Ok(state.rows)
    } else {
        match step(schema, state, steps[0]) {
            Ok(next) => run(schema, next, steps.skip(1)),
            Err(error) => Err(error),
        }
    }
}

/// The rows of a document, given as its steps, under a schema.
pub open spec fn rows_of(schema: Seq<Seq<u8>>, steps: Seq<StepView>) -> Result<
    Seq<RowView>,
    ParseError,
> {
    run(schema, initial(schema), steps)
}

} // verus!
