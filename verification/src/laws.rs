//! What holds of every document: the laws of the row assembler, stated
//! over `rows_of`, which is what `assemble` and `mysqldump_quick_xml`
//! return.

use vstd::prelude::*;
use crate::event::{EventView, StepView, TargetView};
use crate::model::{
    initial, lemma_step_well_formed, malformed_at, resolved_row, rows_of, run, state_after, step,
    unset_slots, well_formed, ModeView, RowView, StateView,
};
use crate::bytes::{field_tag, name_key};
use crate::error::ParseError;
use crate::event::{field_target, name_lookup, NameLookup, TagAttributeView};
use crate::shape::{
    at_row_boundary, eof_free, is_field_element, is_field_end, is_passive, is_row_end, last_text,
    nameless, never_opens, row_end_free, row_ends, slots_with, starts_field, texts_decode,
};

verus! {

/// Feeding one event is one transition.
pub proof fn lemma_state_after_one(schema: Seq<Seq<u8>>, state: StateView, event: StepView)
    ensures
        state_after(schema, state, seq![event]) == step(schema, state, event),
{
    assert(seq![event][0] == event);
    if let Ok(next) = step(schema, state, event) {
        assert(seq![event].skip(1).len() == 0);
        assert(state_after(schema, next, seq![event].skip(1)) is Ok);
    }
}

/// Feeding `first + second` is feeding `first`, then `second`.
pub proof fn lemma_state_after_concat(
    schema: Seq<Seq<u8>>,
    state: StateView,
    first: Seq<StepView>,
    second: Seq<StepView>,
)
    ensures
        state_after(schema, state, first + second) == match state_after(schema, state, first) {
            Ok(middle) => state_after(schema, middle, second),
            Err(error) => Err(error),
        },
    decreases first.len(),
{
    if first.len() == 0 {
        assert(first + second =~= second);
    } else {
        assert((first + second)[0] == first[0]);
        assert((first + second).skip(1) =~= first.skip(1) + second);
        if let Ok(next) = step(schema, state, first[0]) {
            lemma_state_after_concat(schema, next, first.skip(1), second);
        }
    }
}

/// Running `first + second`, where the input does not end within
/// `first`, is feeding `first`, then running `second`.
pub proof fn lemma_run_concat(
    schema: Seq<Seq<u8>>,
    state: StateView,
    first: Seq<StepView>,
    second: Seq<StepView>,
)
    requires
        eof_free(first),
    ensures
        run(schema, state, first + second) == match state_after(schema, state, first) {
            Ok(middle) => run(schema, middle, second),
            Err(error) => Err(error),
        },
    decreases first.len(),
{
    if first.len() == 0 {
        assert(first + second =~= second);
    } else {
        assert((first + second)[0] == first[0]);
        assert((first + second).skip(1) =~= first.skip(1) + second);
        assert(!(first[0].event is Eof));
        if let Ok(next) = step(schema, state, first[0]) {
            assert forall|k: int| 0 <= k < first.skip(1).len() implies !(
            (#[trigger] first.skip(1)[k]).event is Eof) by {
                assert(first.skip(1)[k] == first[k + 1]);
            }
            lemma_run_concat(schema, next, first.skip(1), second);
        }
    }
}

/// Feeding events keeps a well-formed state well formed.
pub proof fn lemma_state_after_well_formed(
    schema: Seq<Seq<u8>>,
    state: StateView,
    steps: Seq<StepView>,
)
    requires
        well_formed(schema, state),
    ensures
        state_after(schema, state, steps) matches Ok(after) ==> well_formed(schema, after),
    decreases steps.len(),
{
    if steps.len() > 0 {
        lemma_step_well_formed(schema, state, steps[0]);
        if let Ok(next) = step(schema, state, steps[0]) {
            lemma_state_after_well_formed(schema, next, steps.skip(1));
        }
    }
}

/// The `row` end tags of `first + second`, where the input does not end
/// within `first`, are those of `first` and those of `second`.
pub proof fn lemma_row_ends_concat(first: Seq<StepView>, second: Seq<StepView>)
    requires
        eof_free(first),
    ensures
        row_ends(first + second) == row_ends(first) + row_ends(second),
    decreases first.len(),
{
    if first.len() == 0 {
        assert(first + second =~= second);
    } else {
        assert((first + second)[0] == first[0]);
        assert((first + second).skip(1) =~= first.skip(1) + second);
        assert(!(first[0].event is Eof));
        assert forall|k: int| 0 <= k < first.skip(1).len() implies !((#[trigger] first.skip(
            1,
        )[k]).event is Eof) by {
            assert(first.skip(1)[k] == first[k + 1]);
        }
        lemma_row_ends_concat(first.skip(1), second);
    }
}

/// Feeding events only appends rows: one per `row` end tag.
pub proof fn lemma_rows_appended(schema: Seq<Seq<u8>>, state: StateView, steps: Seq<StepView>)
    requires
        eof_free(steps),
    ensures
        state_after(schema, state, steps) matches Ok(after) ==> {
            &&& after.rows.len() == state.rows.len() + row_ends(steps)
            &&& after.rows.take(state.rows.len() as int) == state.rows
        },
    decreases steps.len(),
{
    if steps.len() == 0 {
        assert(state.rows.take(state.rows.len() as int) =~= state.rows);
    } else {
        assert(!(steps[0].event is Eof));
        if let Ok(next) = step(schema, state, steps[0]) {
            assert forall|k: int| 0 <= k < steps.skip(1).len() implies !((#[trigger] steps.skip(
                1,
            )[k]).event is Eof) by {
                assert(steps.skip(1)[k] == steps[k + 1]);
            }
            lemma_rows_appended(schema, next, steps.skip(1));
            if let Ok(after) = state_after(schema, next, steps.skip(1)) {
                assert(next.rows.take(state.rows.len() as int) =~= state.rows);
                assert(after.rows.take(state.rows.len() as int) =~= after.rows.take(
                    next.rows.len() as int,
                ).take(state.rows.len() as int));
            }
        }
    }
}

/// A run only appends rows to those that were there: one per `row` end
/// tag before the end of the input.
pub proof fn lemma_run_appends(schema: Seq<Seq<u8>>, state: StateView, steps: Seq<StepView>)
    ensures
        run(schema, state, steps) matches Ok(rows) ==> {
            &&& rows.len() == state.rows.len() + row_ends(steps)
            &&& rows.take(state.rows.len() as int) == state.rows
        },
    decreases steps.len(),
{
    if steps.len() == 0 || steps[0].event is Eof {
        assert(state.rows.take(state.rows.len() as int) =~= state.rows);
    } else {
        if let Ok(next) = step(schema, state, steps[0]) {
            lemma_run_appends(schema, next, steps.skip(1));
            if let Ok(rows) = run(schema, next, steps.skip(1)) {
                assert(next.rows.take(state.rows.len() as int) =~= state.rows);
                assert(rows.take(state.rows.len() as int) =~= rows.take(
                    next.rows.len() as int,
                ).take(state.rows.len() as int));
            }
        }
    }
}

/// A run from a well-formed state returns rows of one string per schema
/// field.
pub proof fn lemma_run_rows_complete(schema: Seq<Seq<u8>>, state: StateView, steps: Seq<StepView>)
    requires
        well_formed(schema, state),
    ensures
        run(schema, state, steps) matches Ok(rows) ==> forall|r: int|
            0 <= r < rows.len() ==> (#[trigger] rows[r]).len() == schema.len(),
    decreases steps.len(),
{
    if steps.len() == 0 || steps[0].event is Eof {
    } else {
        lemma_step_well_formed(schema, state, steps[0]);
        if let Ok(next) = step(schema, state, steps[0]) {
            lemma_run_rows_complete(schema, next, steps.skip(1));
        }
    }
}

/// A document that parses gives exactly one row per `row` end tag before
/// the end of the input, and each row holds one string per schema field.
pub proof fn lemma_one_row_per_row_element(schema: Seq<Seq<u8>>, steps: Seq<StepView>)
    ensures
        rows_of(schema, steps) matches Ok(rows) ==> {
            &&& rows.len() == row_ends(steps)
            &&& forall|r: int| 0 <= r < rows.len() ==> (#[trigger] rows[r]).len() == schema.len()
        },
{
    lemma_run_appends(schema, initial(schema), steps);
    lemma_run_rows_complete(schema, initial(schema), steps);
}

/// Rows come out in document order: the row that ends after `before` is
/// the row whose index is the number of rows that end within `before`,
/// and it holds what the slots resolve to at that point.
pub proof fn lemma_rows_in_document_order(
    schema: Seq<Seq<u8>>,
    before: Seq<StepView>,
    end: StepView,
    after: Seq<StepView>,
)
    requires
        eof_free(before),
        is_row_end(end),
        rows_of(schema, before + seq![end] + after) is Ok,
    ensures
        state_after(schema, initial(schema), before) is Ok,
        row_ends(before) < rows_of(schema, before + seq![end] + after)->Ok_0.len(),
        rows_of(schema, before + seq![end] + after)->Ok_0[row_ends(before) as int] == resolved_row(
            state_after(schema, initial(schema), before)->Ok_0.slots,
        ),
{
    let start = initial(schema);
    let head = before + seq![end];
    assert(eof_free(head)) by {
        assert forall|k: int| 0 <= k < head.len() implies !((#[trigger] head[k]).event is Eof) by {
            if k < before.len() {
                assert(head[k] == before[k]);
            }
        }
    }
    lemma_run_concat(schema, start, head, after);
    lemma_state_after_concat(schema, start, before, seq![end]);
    let reached = state_after(schema, start, before)->Ok_0;
    lemma_state_after_one(schema, reached, end);
    let emitted = state_after(schema, start, head)->Ok_0;
    assert(emitted.rows == reached.rows.push(resolved_row(reached.slots)));
    lemma_rows_appended(schema, start, before);
    lemma_run_appends(schema, emitted, after);
    let rows = rows_of(schema, head + after)->Ok_0;
    assert(rows.take(emitted.rows.len() as int)[row_ends(before) as int] == rows[row_ends(
        before,
    ) as int]);
}

/// An unreadable token makes the parse fail as a whole: whatever rows
/// ended before it, none is returned. Where nothing failed before it,
/// the failure is the token's own, at its offset.
pub proof fn lemma_malformed_input_fails(
    schema: Seq<Seq<u8>>,
    before: Seq<StepView>,
    bad: StepView,
    after: Seq<StepView>,
)
    requires
        eof_free(before),
        bad.event is Malformed,
    ensures
        rows_of(schema, before + seq![bad] + after) is Err,
        state_after(schema, initial(schema), before) is Ok ==> rows_of(
            schema,
            before + seq![bad] + after,
        ) == Err::<Seq<RowView>, _>(malformed_at(bad.offset)),
{
    let start = initial(schema);
    assert(before + seq![bad] + after =~= before + (seq![bad] + after));
    lemma_run_concat(schema, start, before, seq![bad] + after);
    assert((seq![bad] + after)[0] == bad);
}

/// A run of events without `row` end tags has none to count.
proof fn lemma_no_row_ends(steps: Seq<StepView>)
    requires
        row_end_free(steps),
    ensures
        row_ends(steps) == 0,
    decreases steps.len(),
{
    if steps.len() > 0 {
        assert(!is_row_end(steps[0]));
        assert forall|k: int| 0 <= k < steps.skip(1).len() implies !is_row_end(
            #[trigger] steps.skip(1)[k],
        ) by {
            assert(steps.skip(1)[k] == steps[k + 1]);
        }
        lemma_no_row_ends(steps.skip(1));
    }
}

/// At a row boundary no slot is set and no field is open.
proof fn lemma_fresh_at_row_boundary(schema: Seq<Seq<u8>>, before: Seq<StepView>)
    requires
        at_row_boundary(before),
    ensures
        state_after(schema, initial(schema), before) matches Ok(reached) ==> {
            &&& reached.slots == unset_slots(schema.len())
            &&& reached.mode == ModeView::Idle
            &&& well_formed(schema, reached)
        },
{
    let start = initial(schema);
    lemma_state_after_well_formed(schema, start, before);
    if before.len() > 0 {
        let front = before.drop_last();
        assert(before =~= front + seq![before.last()]);
        lemma_state_after_concat(schema, start, front, seq![before.last()]);
        lemma_state_after_well_formed(schema, start, front);
        if let Ok(middle) = state_after(schema, start, front) {
            lemma_state_after_one(schema, middle, before.last());
        }
    }
}

/// Events that neither end a row nor open the field of `slot` leave that
/// slot as it is, where its field is not open to begin with.
proof fn lemma_slot_untouched(
    schema: Seq<Seq<u8>>,
    state: StateView,
    steps: Seq<StepView>,
    slot: int,
)
    requires
        well_formed(schema, state),
        0 <= slot < schema.len(),
        row_end_free(steps),
        never_opens(schema, steps, slot),
        state.mode != ModeView::InField(slot),
    ensures
        state_after(schema, state, steps) matches Ok(after) ==> {
            &&& after.slots[slot] == state.slots[slot]
            &&& after.mode != ModeView::InField(slot)
            &&& after.rows == state.rows
        },
    decreases steps.len(),
{
    if steps.len() > 0 {
        assert(!is_row_end(steps[0]));
        assert(!starts_field(schema, steps[0], TargetView::Slot(slot)));
        lemma_step_well_formed(schema, state, steps[0]);
        if let Ok(next) = step(schema, state, steps[0]) {
            assert forall|k: int| 0 <= k < steps.skip(1).len() implies !is_row_end(
                #[trigger] steps.skip(1)[k],
            ) && !starts_field(schema, steps.skip(1)[k], TargetView::Slot(slot)) by {
                assert(steps.skip(1)[k] == steps[k + 1]);
            }
            lemma_slot_untouched(schema, next, steps.skip(1), slot);
        }
    }
}

/// Passive events change nothing while no known field is open.
proof fn lemma_passive_outside_known_field(
    schema: Seq<Seq<u8>>,
    state: StateView,
    body: Seq<StepView>,
)
    requires
        !(state.mode is InField),
        forall|k: int| 0 <= k < body.len() ==> is_passive(#[trigger] body[k]),
    ensures
        state_after(schema, state, body) == Ok::<_, ParseError>(state),
    decreases body.len(),
{
    if body.len() > 0 {
        assert(is_passive(body[0]));
        assert forall|k: int| 0 <= k < body.skip(1).len() implies is_passive(
            #[trigger] body.skip(1)[k],
        ) by {
            assert(body.skip(1)[k] == body[k + 1]);
        }
        lemma_passive_outside_known_field(schema, state, body.skip(1));
    }
}

/// While a known field is open, passive events leave in its slot the
/// last text among them, and change nothing else.
proof fn lemma_passive_in_known_field(
    schema: Seq<Seq<u8>>,
    state: StateView,
    body: Seq<StepView>,
    slot: int,
)
    requires
        well_formed(schema, state),
        state.mode == ModeView::InField(slot),
        forall|k: int| 0 <= k < body.len() ==> is_passive(#[trigger] body[k]),
        texts_decode(body),
    ensures
        state_after(schema, state, body) == Ok::<_, ParseError>(
            StateView { slots: slots_with(state.slots, slot, last_text(body)), ..state },
        ),
    decreases body.len(),
{
    if body.len() > 0 {
        let front = body.drop_last();
        let last = body.last();
        assert(body =~= front + seq![last]);
        assert forall|k: int| 0 <= k < front.len() implies is_passive(#[trigger] front[k]) by {
            assert(front[k] == body[k]);
        }
        assert(texts_decode(front)) by {
            assert forall|k: int| 0 <= k < front.len() implies ((
            #[trigger] front[k]).event matches EventView::Text { decoded } ==> decoded is Some) by {
                assert(front[k] == body[k]);
            }
        }
        lemma_passive_in_known_field(schema, state, front, slot);
        lemma_state_after_concat(schema, state, front, seq![last]);
        let middle = StateView { slots: slots_with(state.slots, slot, last_text(front)), ..state };
        lemma_state_after_one(schema, middle, last);
        assert(is_passive(last));
        assert(last == body[body.len() - 1]);
        if let EventView::Text { decoded } = last.event {
            assert(decoded is Some);
            assert(middle.slots.update(slot, decoded) =~= state.slots.update(slot, decoded));
        }
    }
}

/// A start tag before a run of events does not change its last text.
proof fn lemma_last_text_skips_first(steps: Seq<StepView>)
    requires
        steps.len() > 0,
        !(steps[0].event is Text),
    ensures
        last_text(steps) == last_text(steps.skip(1)),
    decreases steps.len(),
{
    if steps.len() == 1 {
        assert(steps.drop_last().len() == 0);
        assert(steps.skip(1).len() == 0);
    } else {
        let front = steps.drop_last();
        assert(front[0] == steps[0]);
        lemma_last_text_skips_first(front);
        assert(front.skip(1) =~= steps.skip(1).drop_last());
        assert(steps.skip(1).last() == steps.last());
    }
}

/// The parts of a field element: its start tag, its body, its end tag.
proof fn lemma_field_element_parts(
    schema: Seq<Seq<u8>>,
    element: Seq<StepView>,
    target: TargetView,
)
    requires
        is_field_element(schema, element, target),
    ensures
        element == seq![element[0]] + element.subrange(1, element.len() - 1) + seq![
            element.last(),
        ],
        forall|k: int|
            0 <= k < element.subrange(1, element.len() - 1).len() ==> is_passive(
                #[trigger] element.subrange(1, element.len() - 1)[k],
            ),
        last_text(element) == last_text(element.subrange(1, element.len() - 1)),
        texts_decode(element) ==> texts_decode(element.subrange(1, element.len() - 1)),
        eof_free(element),
        row_end_free(element),
{
    let body = element.subrange(1, element.len() - 1);
    assert(element =~= seq![element[0]] + body + seq![element.last()]);
    assert forall|k: int| 0 <= k < body.len() implies is_passive(#[trigger] body[k]) by {
        assert(body[k] == element[k + 1]);
    }
    assert(last_text(element) == last_text(element.drop_last()));
    lemma_last_text_skips_first(element.drop_last());
    assert(element.drop_last().skip(1) =~= body);
    if texts_decode(element) {
        assert forall|k: int| 0 <= k < body.len() implies ((
        #[trigger] body[k]).event matches EventView::Text { decoded } ==> decoded is Some) by {
            assert(body[k] == element[k + 1]);
        }
    }
    assert forall|k: int| 0 <= k < element.len() implies !((#[trigger] element[k]).event is Eof)
        && !is_row_end(element[k]) by {
        if 0 < k < element.len() - 1 {
            assert(is_passive(element[k]));
        }
    }
}

/// A field that the schema knows, from its start tag to its end tag,
/// leaves its last text in its slot, closes the field and changes
/// nothing else. Without text the slot keeps what it held.
pub proof fn lemma_known_field_element(
    schema: Seq<Seq<u8>>,
    state: StateView,
    element: Seq<StepView>,
    slot: int,
)
    requires
        well_formed(schema, state),
        is_field_element(schema, element, TargetView::Slot(slot)),
        texts_decode(element),
    ensures
        0 <= slot < schema.len(),
        state_after(schema, state, element) == Ok::<_, ParseError>(
            StateView {
                slots: slots_with(state.slots, slot, last_text(element)),
                mode: ModeView::Idle,
                rows: state.rows,
            },
        ),
{
    let body = element.subrange(1, element.len() - 1);
    lemma_field_element_parts(schema, element, TargetView::Slot(slot));
    lemma_step_well_formed(schema, state, element[0]);
    let opened = StateView { mode: ModeView::InField(slot), ..state };
    lemma_state_after_one(schema, state, element[0]);
    lemma_passive_in_known_field(schema, opened, body, slot);
    lemma_state_after_concat(schema, state, seq![element[0]], body);
    let filled = StateView { slots: slots_with(state.slots, slot, last_text(body)), ..opened };
    lemma_state_after_one(schema, filled, element.last());
    lemma_state_after_concat(schema, state, seq![element[0]] + body, seq![element.last()]);
}

/// A field that the schema does not know, from its start tag to its end
/// tag, changes nothing but to close whatever field was open, whatever
/// its text.
pub proof fn lemma_unknown_field_element(
    schema: Seq<Seq<u8>>,
    state: StateView,
    element: Seq<StepView>,
)
    requires
        is_field_element(schema, element, TargetView::Unknown),
    ensures
        state_after(schema, state, element) == Ok::<_, ParseError>(
            StateView { mode: ModeView::Idle, ..state },
        ),
{
    let body = element.subrange(1, element.len() - 1);
    lemma_field_element_parts(schema, element, TargetView::Unknown);
    let opened = StateView { mode: ModeView::InUnknownField, ..state };
    lemma_state_after_one(schema, state, element[0]);
    lemma_passive_outside_known_field(schema, opened, body);
    lemma_state_after_concat(schema, state, seq![element[0]], body);
    lemma_state_after_one(schema, opened, element.last());
    lemma_state_after_concat(schema, state, seq![element[0]] + body, seq![element.last()]);
}

/// Joining runs of events that do not hold the end of the input gives
/// one that does not.
proof fn lemma_eof_free_concat(first: Seq<StepView>, second: Seq<StepView>)
    requires
        eof_free(first),
        eof_free(second),
    ensures
        eof_free(first + second),
{
    assert forall|k: int| 0 <= k < (first + second).len() implies !((
    #[trigger] (first + second)[k]).event is Eof) by {
        if k < first.len() {
            assert((first + second)[k] == first[k]);
        } else {
            assert((first + second)[k] == second[k - first.len()]);
        }
    }
}

/// With no known field open, it makes no difference to what follows
/// whether an unknown field is open or none.
proof fn lemma_unknown_is_like_idle(
    schema: Seq<Seq<u8>>,
    left: StateView,
    right: StateView,
    steps: Seq<StepView>,
)
    requires
        left.slots == right.slots,
        left.rows == right.rows,
        !(left.mode is InField),
        !(right.mode is InField),
    ensures
        run(schema, left, steps) == run(schema, right, steps),
    decreases steps.len(),
{
    if steps.len() == 0 || steps[0].event is Eof {
    } else {
        match (step(schema, left, steps[0]), step(schema, right, steps[0])) {
            (Ok(next_left), Ok(next_right)) => {
                if next_left != next_right {
                    lemma_unknown_is_like_idle(schema, next_left, next_right, steps.skip(1));
                }
            },
            _ => {},
        }
    }
}

/// A schema field that a row has no `field` element for comes out as
/// the empty string in that row.
///
/// The row is the events `row` between a row boundary and the `row` end
/// tag `end`; none of them opens the field of `slot`.
pub proof fn lemma_absent_field_is_empty(
    schema: Seq<Seq<u8>>,
    before: Seq<StepView>,
    row: Seq<StepView>,
    end: StepView,
    after: Seq<StepView>,
    slot: int,
)
    requires
        0 <= slot < schema.len(),
        eof_free(before),
        at_row_boundary(before),
        eof_free(row),
        row_end_free(row),
        never_opens(schema, row, slot),
        is_row_end(end),
        rows_of(schema, before + row + seq![end] + after) is Ok,
    ensures
        row_ends(before) < rows_of(schema, before + row + seq![end] + after)->Ok_0.len(),
        rows_of(schema, before + row + seq![end] + after)->Ok_0[row_ends(before) as int][slot]
            == Seq::<char>::empty(),
{
    let start = initial(schema);
    lemma_eof_free_concat(before, row);
    lemma_rows_in_document_order(schema, before + row, end, after);
    lemma_row_ends_concat(before, row);
    lemma_no_row_ends(row);
    lemma_state_after_concat(schema, start, before, row);
    lemma_fresh_at_row_boundary(schema, before);
    let reached = state_after(schema, start, before)->Ok_0;
    lemma_slot_untouched(schema, reached, row, slot);
    lemma_state_after_well_formed(schema, reached, row);
}

/// Where a `field` element holds more than one text, its value is the
/// last one: the row's string for that field is the decoded content of
/// the element's last text event.
///
/// The element is a known field with text; `rest` is what follows it in
/// its row, up to the `row` end tag `end`, and does not open the same
/// field again.
pub proof fn lemma_last_text_wins(
    schema: Seq<Seq<u8>>,
    before: Seq<StepView>,
    element: Seq<StepView>,
    rest: Seq<StepView>,
    end: StepView,
    after: Seq<StepView>,
    slot: int,
)
    requires
        eof_free(before),
        is_field_element(schema, element, TargetView::Slot(slot)),
        texts_decode(element),
        last_text(element) is Some,
        eof_free(rest),
        row_end_free(rest),
        never_opens(schema, rest, slot),
        is_row_end(end),
        rows_of(schema, before + element + rest + seq![end] + after) is Ok,
    ensures
        0 <= slot < schema.len(),
        row_ends(before + element + rest) < rows_of(
            schema,
            before + element + rest + seq![end] + after,
        )->Ok_0.len(),
        rows_of(schema, before + element + rest + seq![end] + after)->Ok_0[row_ends(
            before + element + rest,
        ) as int][slot] == last_text(element)->Some_0,
        row_ends(before + element + rest) == row_ends(before),
{
    let start = initial(schema);
    lemma_field_element_parts(schema, element, TargetView::Slot(slot));
    lemma_eof_free_concat(before, element);
    lemma_eof_free_concat(before + element, rest);
    lemma_rows_in_document_order(schema, before + element + rest, end, after);
    lemma_row_ends_concat(before + element, rest);
    lemma_row_ends_concat(before, element);
    lemma_no_row_ends(element);
    lemma_no_row_ends(rest);
    lemma_state_after_concat(schema, start, before + element, rest);
    lemma_state_after_concat(schema, start, before, element);
    lemma_state_after_well_formed(schema, start, before);
    let reached = state_after(schema, start, before)->Ok_0;
    lemma_known_field_element(schema, reached, element, slot);
    let filled = state_after(schema, reached, element)->Ok_0;
    lemma_state_after_well_formed(schema, reached, element);
    lemma_slot_untouched(schema, filled, rest, slot);
    lemma_state_after_well_formed(schema, filled, rest);
}

/// The order of two `field` elements that stand side by side does not
/// matter, unless both are for the same schema field: which string a
/// field receives goes by the `name` attribute alone.
pub proof fn lemma_field_order_is_irrelevant(
    schema: Seq<Seq<u8>>,
    before: Seq<StepView>,
    first: Seq<StepView>,
    second: Seq<StepView>,
    after: Seq<StepView>,
    first_target: TargetView,
    second_target: TargetView,
)
    requires
        eof_free(before),
        is_field_element(schema, first, first_target),
        is_field_element(schema, second, second_target),
        !(first_target is Broken),
        !(second_target is Broken),
        first_target is Slot ==> texts_decode(first),
        second_target is Slot ==> texts_decode(second),
        first_target is Slot ==> first_target != second_target,
    ensures
        rows_of(schema, before + first + second + after) == rows_of(
            schema,
            before + second + first + after,
        ),
{
    let start = initial(schema);
    lemma_field_element_parts(schema, first, first_target);
    lemma_field_element_parts(schema, second, second_target);
    lemma_eof_free_concat(first, second);
    lemma_eof_free_concat(second, first);
    lemma_eof_free_concat(before, first + second);
    lemma_eof_free_concat(before, second + first);
    assert(before + first + second + after =~= (before + (first + second)) + after);
    assert(before + second + first + after =~= (before + (second + first)) + after);
    lemma_run_concat(schema, start, before + (first + second), after);
    lemma_run_concat(schema, start, before + (second + first), after);
    lemma_state_after_concat(schema, start, before, first + second);
    lemma_state_after_concat(schema, start, before, second + first);
    lemma_state_after_well_formed(schema, start, before);
    if let Ok(reached) = state_after(schema, start, before) {
        lemma_state_after_concat(schema, reached, first, second);
        lemma_state_after_concat(schema, reached, second, first);
        lemma_state_after_well_formed(schema, reached, first);
        lemma_state_after_well_formed(schema, reached, second);
        match first_target {
            TargetView::Slot(i) => {
                lemma_known_field_element(schema, reached, first, i);
            },
            _ => {
                lemma_unknown_field_element(schema, reached, first);
            },
        }
        match second_target {
            TargetView::Slot(j) => {
                lemma_known_field_element(schema, reached, second, j);
            },
            _ => {
                lemma_unknown_field_element(schema, reached, second);
            },
        }
        let after_first = state_after(schema, reached, first)->Ok_0;
        let after_second = state_after(schema, reached, second)->Ok_0;
        match second_target {
            TargetView::Slot(j) => {
                lemma_known_field_element(schema, after_first, second, j);
            },
            _ => {
                lemma_unknown_field_element(schema, after_first, second);
            },
        }
        match first_target {
            TargetView::Slot(i) => {
                lemma_known_field_element(schema, after_second, first, i);
            },
            _ => {
                lemma_unknown_field_element(schema, after_second, first);
            },
        }
        let one_way = state_after(schema, after_first, second)->Ok_0;
        let other_way = state_after(schema, after_second, first)->Ok_0;
        assert(one_way.slots =~= other_way.slots);
    }
}

/// A `field` element that the schema does not know is ignored: the rows
/// are those of the document without it, whatever its text.
///
/// The element stands where no known field is open: nested in a known
/// field, it would close that field early.
pub proof fn lemma_unknown_field_is_ignored(
    schema: Seq<Seq<u8>>,
    before: Seq<StepView>,
    element: Seq<StepView>,
    after: Seq<StepView>,
)
    requires
        eof_free(before),
        is_field_element(schema, element, TargetView::Unknown),
        state_after(schema, initial(schema), before) matches Ok(reached) ==> !(reached.mode
            is InField),
    ensures
        rows_of(schema, before + element + after) == rows_of(schema, before + after),
{
    let start = initial(schema);
    lemma_field_element_parts(schema, element, TargetView::Unknown);
    lemma_eof_free_concat(before, element);
    lemma_run_concat(schema, start, before + element, after);
    lemma_run_concat(schema, start, before, after);
    lemma_state_after_concat(schema, start, before, element);
    if let Ok(reached) = state_after(schema, start, before) {
        lemma_unknown_field_element(schema, reached, element);
        lemma_unknown_is_like_idle(
            schema,
            StateView { mode: ModeView::Idle, ..reached },
            reached,
            after,
        );
    }
}

/// A `field` start tag without a readable `name` attribute opens an
/// unknown field.
pub proof fn lemma_nameless_field_is_unknown(
    schema: Seq<Seq<u8>>,
    attributes: Seq<TagAttributeView>,
)
    requires
        nameless(attributes),
    ensures
        name_lookup(attributes) == NameLookup::Absent,
        field_target(schema, attributes) == TargetView::Unknown,
    decreases attributes.len(),
{
    if attributes.len() > 0 {
        assert forall|k: int| 0 <= k < attributes.skip(1).len() implies ((
        #[trigger] attributes.skip(1)[k]) matches TagAttributeView::Pair { key, .. }
            && key != name_key()) by {
            assert(attributes.skip(1)[k] == attributes[k + 1]);
        }
        lemma_nameless_field_is_unknown(schema, attributes.skip(1));
    }
}

/// A `field` element without a `name` attribute contributes nothing,
/// whatever its text: the rows are those of the document without it.
pub proof fn lemma_nameless_field_is_ignored(
    schema: Seq<Seq<u8>>,
    before: Seq<StepView>,
    element: Seq<StepView>,
    after: Seq<StepView>,
)
    requires
        eof_free(before),
        element.len() >= 2,
        element[0].event matches EventView::Start { name, attributes } && name
            == field_tag() && nameless(attributes),
        is_field_end(element.last()),
        forall|k: int| 0 < k < element.len() - 1 ==> is_passive(#[trigger] element[k]),
        state_after(schema, initial(schema), before) matches Ok(reached) ==> !(reached.mode
            is InField),
    ensures
        rows_of(schema, before + element + after) == rows_of(schema, before + after),
{
    if let EventView::Start { name, attributes } = element[0].event {
        lemma_nameless_field_is_unknown(schema, attributes);
    }
    lemma_unknown_field_is_ignored(schema, before, element, after);
}

} // verus!
