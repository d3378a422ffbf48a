//! Words for the shape of a run of events: what the laws of the
//! assembler are stated in.

use vstd::prelude::*;
use crate::bytes::{field_tag, name_key, row_tag};
use crate::event::{field_target, EventView, StepView, TagAttributeView, TargetView};

verus! {

/// No event in `steps` is the end of the input.
pub open spec fn eof_free(steps: Seq<StepView>) -> bool {
    forall|k: int| 0 <= k < steps.len() ==> !((#[trigger] steps[k]).event is Eof)
}

/// The end tag of a `row`.
pub open spec fn is_row_end(step: StepView) -> bool {
    step.event matches EventView::End { name } && name == row_tag()
}

/// The end tag of a `field`.
pub open spec fn is_field_end(step: StepView) -> bool {
    step.event matches EventView::End { name } && name == field_tag()
}

/// The start tag of a `field`.
pub open spec fn is_field_start(step: StepView) -> bool {
    step.event matches EventView::Start { name, .. } && name == field_tag()
}

/// The start tag of a `field` whose attributes resolve to `target`.
pub open spec fn starts_field(schema: Seq<Seq<u8>>, step: StepView, target: TargetView) -> bool {
    step.event matches EventView::Start { name, attributes } && name == field_tag() && field_target(
        schema,
        attributes,
    ) == target
}

/// An event that neither opens nor closes a field, ends no row and is
/// neither the end of the input nor a failure: text, or markup that the
/// dump format gives no meaning to.
pub open spec fn is_passive(step: StepView) -> bool {
    &&& !is_field_start(step)
    &&& !is_field_end(step)
    &&& !is_row_end(step)
    &&& !(step.event is Eof)
    &&& !(step.event is Malformed)
}

/// No event in `steps` ends a row.
pub open spec fn row_end_free(steps: Seq<StepView>) -> bool {
    forall|k: int| 0 <= k < steps.len() ==> !is_row_end(#[trigger] steps[k])
}

/// No event in `steps` opens the field of slot `slot`.
pub open spec fn never_opens(schema: Seq<Seq<u8>>, steps: Seq<StepView>, slot: int) -> bool {
    forall|k: int|
        0 <= k < steps.len() ==> !starts_field(schema, #[trigger] steps[k], TargetView::Slot(slot))
}

/// Every text event in `steps` could be decoded.
pub open spec fn texts_decode(steps: Seq<StepView>) -> bool {
    forall|k: int|
        0 <= k < steps.len() ==> ((#[trigger] steps[k]).event matches EventView::Text { decoded }
            ==> decoded is Some)
}

/// One `field` element: its start tag, resolving to `target`, then
/// passive events only, then its end tag.
pub open spec fn is_field_element(schema: Seq<Seq<u8>>, element: Seq<StepView>, target: TargetView) -> bool {
    &&& element.len() >= 2
    &&& starts_field(schema, element[0], target)
    &&& is_field_end(element.last())
    &&& forall|k: int| 0 < k < element.len() - 1 ==> is_passive(#[trigger] element[k])
}

/// The decoded content of the last text event in `steps` that could be
/// decoded, if there is one.
pub open spec fn last_text(steps: Seq<StepView>) -> Option<Seq<char>>
    decreases steps.len(),
{
    if steps.len() == 0 {
        None
    } else {
        match steps.last().event {
            EventView::Text { decoded: Some(text) } => Some(text),
            _ => last_text(steps.drop_last()),
        }
    }
}

/// The slots once a field of slot `slot` has closed whose last text, if
/// it had any, was `text`.
pub open spec fn slots_with(
    slots: Seq<Option<Seq<char>>>,
    slot: int,
    text: Option<Seq<char>>,
) -> Seq<Option<Seq<char>>> {
    match text {
        Some(content) => slots.update(slot, Some(content)),
        None => slots,
    }
}

/// Number of `row` end tags before the end of the input.
pub open spec fn row_ends(steps: Seq<StepView>) -> nat
    decreases steps.len(),
{
    if steps.len() == 0 || steps[0].event is Eof {
        0
    } else if is_row_end(steps[0]) {
        1 + row_ends(steps.skip(1))
    } else {
        row_ends(steps.skip(1))
    }
}

/// Where a row may begin: at the start of the document or right after
/// the end of the row before it.
pub open spec fn at_row_boundary(before: Seq<StepView>) -> bool {
    before.len() == 0 || is_row_end(before.last())
}

/// No attribute in the list is unreadable or has the key `name`.
pub open spec fn nameless(attributes: Seq<TagAttributeView>) -> bool {
    forall|k: int|
        0 <= k < attributes.len() ==> ((#[trigger] attributes[k]) matches TagAttributeView::Pair {
            key,
            ..
        } && key != name_key())
}

} // verus!
