//! Where the ranges of a parsed board come from: every span carries the range
//! of the event that closed it, and every offset of an item's contents lies
//! in the range of some content event. Slicing the source by a range of the
//! board therefore gives text that the tokenizer itself pointed at.

use crate::board::{Board, ItemView, ListView, Span};
use crate::coverage::{lemma_insert_covers, lemma_insert_well_formed, well_formed};
use crate::event::{Event, EventKind};
use crate::parser::{initial, outcome_view, parse_spec, run, step, ParseError, State};
use crate::range::{covers, holds, non_empty, within, Range};
use vstd::prelude::*;

verus! {

/// The event counts as content: it is not the start or the end of a bullet
/// list or of an item, and not a checkbox marker.
pub open spec fn is_content(kind: EventKind) -> bool {
    match kind {
        EventKind::ListStart(None) => false,
        EventKind::ListEnd(false) => false,
        EventKind::ItemStart => false,
        EventKind::ItemEnd => false,
        EventKind::TaskMarker(_) => false,
        _ => true,
    }
}

/// Some event of the stream ends a bullet list at `range`.
pub open spec fn list_ended_at(events: Seq<Event>, range: Range) -> bool {
    exists|i: int|
        0 <= i < events.len() && (#[trigger] events[i]).kind == EventKind::ListEnd(false)
            && events[i].range == range
}

/// Some event of the stream ends an item at `range`.
pub open spec fn item_ended_at(events: Seq<Event>, range: Range) -> bool {
    exists|i: int|
        0 <= i < events.len() && (#[trigger] events[i]).kind == EventKind::ItemEnd
            && events[i].range == range
}

/// Some event of the stream is a checkbox marker at `range` with the state
/// `checked`.
pub open spec fn marked_at(events: Seq<Event>, checked: bool, range: Range) -> bool {
    exists|i: int|
        0 <= i < events.len() && (#[trigger] events[i]).kind == EventKind::TaskMarker(checked)
            && events[i].range == range
}

/// Some content event of the stream holds the offset `x` in its range.
pub open spec fn content_at(events: Seq<Event>, x: int) -> bool {
    exists|i: int|
        0 <= i < events.len() && is_content((#[trigger] events[i]).kind) && holds(
            events[i].range,
            x,
        )
}

/// Every range in the item goes back to an event of the stream: the checkbox
/// to a marker with the same state, each offset of the contents to a content
/// event, the nested list to the end of a list. The contents are canonical.
pub open spec fn item_traced(events: Seq<Event>, item: ItemView) -> bool
    decreases item,
{
    &&& item.checkbox matches Some(checkbox) ==> marked_at(
        events,
        checkbox.element,
        checkbox.range,
    )
    &&& well_formed(item.contents)
    &&& forall|x: int| covers(item.contents, x) ==> content_at(events, x)
    &&& item.nested_list matches Some(nested) ==> list_ended_at(events, nested.range)
        && list_traced(events, nested.element)
}

/// Every item of the list carries the range of an event that ends an item,
/// and every range inside the item goes back to the stream as well.
pub open spec fn list_traced(events: Seq<Event>, list: ListView) -> bool
    decreases list,
{
    forall|k: int|
        0 <= k < list.items.len() ==> item_ended_at(events, (#[trigger] list.items[k]).range)
            && item_traced(events, list.items[k].element)
}

/// Every top-level list carries the range of an event that ends a list, and
/// every range inside it goes back to the stream as well.
pub open spec fn board_traced(events: Seq<Event>, board: Seq<Span<ListView>>) -> bool {
    forall|k: int|
        0 <= k < board.len() ==> list_ended_at(events, (#[trigger] board[k]).range)
            && list_traced(events, board[k].element)
}

/// Everything open or finished in the state goes back to the stream.
pub open spec fn state_traced(events: Seq<Event>, state: State) -> bool {
    &&& forall|k: int| 0 <= k < state.lists.len() ==> list_traced(events, #[trigger] state.lists[k])
    &&& forall|k: int| 0 <= k < state.items.len() ==> item_traced(events, #[trigger] state.items[k])
    &&& board_traced(events, state.board)
}

/// What one stream accounts for, the stream with one more event accounts
/// for too.
proof fn lemma_events_grow(events: Seq<Event>, event: Event)
    ensures
        forall|range: Range|
            list_ended_at(events, range) ==> list_ended_at(events.push(event), range),
        forall|range: Range|
            item_ended_at(events, range) ==> item_ended_at(events.push(event), range),
        forall|checked: bool, range: Range|
            marked_at(events, checked, range) ==> marked_at(events.push(event), checked, range),
        forall|x: int| content_at(events, x) ==> content_at(events.push(event), x),
{
    let more = events.push(event);
    assert forall|range: Range| list_ended_at(events, range) implies list_ended_at(
        more,
        range,
    ) by {
        let i = choose|i: int|
            0 <= i < events.len() && (#[trigger] events[i]).kind == EventKind::ListEnd(false)
                && events[i].range == range;
        assert(more[i] == events[i]);
    }
    assert forall|range: Range| item_ended_at(events, range) implies item_ended_at(
        more,
        range,
    ) by {
        let i = choose|i: int|
            0 <= i < events.len() && (#[trigger] events[i]).kind == EventKind::ItemEnd
                && events[i].range == range;
        assert(more[i] == events[i]);
    }
    assert forall|checked: bool, range: Range| marked_at(events, checked, range) implies marked_at(
        more,
        checked,
        range,
    ) by {
        let i = choose|i: int|
            0 <= i < events.len() && (#[trigger] events[i]).kind == EventKind::TaskMarker(checked)
                && events[i].range == range;
        assert(more[i] == events[i]);
    }
    assert forall|x: int| content_at(events, x) implies content_at(more, x) by {
        let i = choose|i: int|
            0 <= i < events.len() && is_content((#[trigger] events[i]).kind) && holds(
                events[i].range,
                x,
            );
        assert(more[i] == events[i]);
    }
}

/// An item that goes back to a stream goes back to the stream with one more
/// event.
proof fn lemma_item_grows(events: Seq<Event>, event: Event, item: ItemView)
    requires
        item_traced(events, item),
    ensures
        item_traced(events.push(event), item),
    decreases item,
{
    lemma_events_grow(events, event);
    let more = events.push(event);
    if let Some(checkbox) = item.checkbox {
        assert(marked_at(events, checkbox.element, checkbox.range));
    }
    assert forall|x: int| covers(item.contents, x) implies content_at(more, x) by {
        assert(content_at(events, x));
    }
    if let Some(nested) = item.nested_list {
        assert(list_ended_at(events, nested.range));
        lemma_list_grows(events, event, nested.element);
    }
}

/// A list that goes back to a stream goes back to the stream with one more
/// event.
proof fn lemma_list_grows(events: Seq<Event>, event: Event, list: ListView)
    requires
        list_traced(events, list),
    ensures
        list_traced(events.push(event), list),
    decreases list,
{
    lemma_events_grow(events, event);
    assert forall|k: int| 0 <= k < list.items.len() implies item_ended_at(
        events.push(event),
        (#[trigger] list.items[k]).range,
    ) && item_traced(events.push(event), list.items[k].element) by {
        lemma_item_grows(events, event, list.items[k].element);
    }
}

/// A state that goes back to a stream goes back to the stream with one more
/// event.
proof fn lemma_state_grows(events: Seq<Event>, event: Event, state: State)
    requires
        state_traced(events, state),
    ensures
        state_traced(events.push(event), state),
{
    lemma_events_grow(events, event);
    let more = events.push(event);
    assert forall|k: int| 0 <= k < state.lists.len() implies list_traced(
        more,
        #[trigger] state.lists[k],
    ) by {
        lemma_list_grows(events, event, state.lists[k]);
    }
    assert forall|k: int| 0 <= k < state.items.len() implies item_traced(
        more,
        #[trigger] state.items[k],
    ) by {
        lemma_item_grows(events, event, state.items[k]);
    }
    assert forall|k: int| 0 <= k < state.board.len() implies list_ended_at(
        more,
        (#[trigger] state.board[k]).range,
    ) && list_traced(more, state.board[k].element) by {
        lemma_list_grows(events, event, state.board[k].element);
    }
}

/// One step keeps the state traced: what the event adds goes back to the
/// event itself.
proof fn lemma_step_traced(events: Seq<Event>, state: State, event: Event, next: State)
    requires
        state_traced(events, state),
        step(state, event) == Ok::<State, ParseError>(next),
    ensures
        state_traced(events.push(event), next),
{
    let more = events.push(event);
    let last = events.len() as int;
    lemma_state_grows(events, event, state);
    assert(more[last] == event);
    match event.kind {
        EventKind::ListStart(None) => {
            assert forall|k: int| 0 <= k < next.lists.len() implies list_traced(
                more,
                #[trigger] next.lists[k],
            ) by {
                if k < state.lists.len() {
                    assert(next.lists[k] == state.lists[k]);
                }
            }
        },
        EventKind::ListEnd(false) => {
            let finished = Span { element: state.lists.last(), range: event.range };
            assert(list_ended_at(more, event.range));
            assert(list_traced(more, state.lists[state.lists.len() - 1]));
            assert forall|k: int| 0 <= k < next.lists.len() implies list_traced(
                more,
                #[trigger] next.lists[k],
            ) by {
                assert(next.lists[k] == state.lists[k]);
            }
            if state.items.len() == 0 {
                assert forall|k: int| 0 <= k < next.board.len() implies list_ended_at(
                    more,
                    (#[trigger] next.board[k]).range,
                ) && list_traced(more, next.board[k].element) by {
                    if k < state.board.len() {
                        assert(next.board[k] == state.board[k]);
                    } else {
                        assert(next.board[k] == finished);
                    }
                }
            } else {
                let open = state.items.len() - 1;
                assert(item_traced(more, state.items[open]));
                assert forall|k: int| 0 <= k < next.items.len() implies item_traced(
                    more,
                    #[trigger] next.items[k],
                ) by {
                    if k < open {
                        assert(next.items[k] == state.items[k]);
                    }
                }
            }
        },
        EventKind::ItemStart => {
            assert forall|k: int| 0 <= k < next.items.len() implies item_traced(
                more,
                #[trigger] next.items[k],
            ) by {
                if k < state.items.len() {
                    assert(next.items[k] == state.items[k]);
                } else {
                    assert(forall|x: int| !covers(next.items[k].contents, x));
                }
            }
        },
        EventKind::ItemEnd => {
            let finished = Span { element: state.items.last(), range: event.range };
            let open = state.lists.len() - 1;
            assert(item_ended_at(more, event.range));
            assert(item_traced(more, state.items[state.items.len() - 1]));
            assert(list_traced(more, state.lists[open]));
            assert forall|k: int| 0 <= k < next.items.len() implies item_traced(
                more,
                #[trigger] next.items[k],
            ) by {
                assert(next.items[k] == state.items[k]);
            }
            assert forall|k: int| 0 <= k < next.lists.len() implies list_traced(
                more,
                #[trigger] next.lists[k],
            ) by {
                if k < open {
                    assert(next.lists[k] == state.lists[k]);
                } else {
                    let list = next.lists[k];
                    assert forall|j: int| 0 <= j < list.items.len() implies item_ended_at(
                        more,
                        (#[trigger] list.items[j]).range,
                    ) && item_traced(more, list.items[j].element) by {
                        if j < state.lists[open].items.len() {
                            assert(list.items[j] == state.lists[open].items[j]);
                        } else {
                            assert(list.items[j] == finished);
                        }
                    }
                }
            }
        },
        EventKind::TaskMarker(checked) => {
            let open = state.items.len() - 1;
            assert(marked_at(more, checked, event.range));
            assert(item_traced(more, state.items[open]));
            assert forall|k: int| 0 <= k < next.items.len() implies item_traced(
                more,
                #[trigger] next.items[k],
            ) by {
                if k < open {
                    assert(next.items[k] == state.items[k]);
                }
            }
        },
        _ => {
            assert(is_content(event.kind));
            if state.items.len() > 0 && non_empty(event.range) {
                let open = state.items.len() - 1;
                let before = state.items[open];
                assert(item_traced(more, before));
                lemma_insert_well_formed(before.contents, event.range);
                lemma_insert_covers(before.contents, event.range);
                assert forall|x: int| holds(event.range, x) implies content_at(more, x) by {
                    assert(is_content(more[last].kind) && holds(more[last].range, x));
                }
                assert forall|k: int| 0 <= k < next.items.len() implies item_traced(
                    more,
                    #[trigger] next.items[k],
                ) by {
                    if k < open {
                        assert(next.items[k] == state.items[k]);
                    }
                }
            }
        },
    }
}

/// Whatever state a stream reaches goes back to that stream.
proof fn lemma_run_traced(events: Seq<Event>)
    ensures
        run(initial(), events) matches Ok(reached) ==> state_traced(events, reached),
    decreases events.len(),
{
    if events.len() > 0 {
        let front = events.drop_last();
        lemma_run_traced(front);
        assert(events == front.push(events.last()));
        if let Ok(reached) = run(initial(), front) {
            if let Ok(next) = step(reached, events.last()) {
                lemma_step_traced(front, reached, events.last(), next);
            }
        }
    }
}

/// Every span of a parsed board carries the range of the event that closed
/// it (a list by the end of a list, an item by the end of an item, a
/// checkbox by its marker, with the marker's state), and the contents of
/// every item are canonical and cover only offsets that a content event
/// holds. No range of the board is made up or shifted.
pub proof fn lemma_parse_traced(events: Seq<Event>, board: Seq<Span<ListView>>)
    requires
        parse_spec(events) == Ok::<Seq<Span<ListView>>, ParseError>(board),
    ensures
        board_traced(events, board),
{
    lemma_run_traced(events);
}

/// Every event of the stream points into a source of `len` bytes.
pub open spec fn events_within(events: Seq<Event>, len: int) -> bool {
    forall|i: int| 0 <= i < events.len() ==> within((#[trigger] events[i]).range, len)
}

/// Every range in the item lies inside a source of `len` bytes.
pub open spec fn item_within(item: ItemView, len: int) -> bool
    decreases item,
{
    &&& item.checkbox matches Some(checkbox) ==> within(checkbox.range, len)
    &&& forall|j: int| 0 <= j < item.contents.len() ==> within(#[trigger] item.contents[j], len)
    &&& item.nested_list matches Some(nested) ==> within(nested.range, len) && list_within(
        nested.element,
        len,
    )
}

/// Every range in the list lies inside a source of `len` bytes.
pub open spec fn list_within(list: ListView, len: int) -> bool
    decreases list,
{
    forall|k: int|
        0 <= k < list.items.len() ==> within((#[trigger] list.items[k]).range, len)
            && item_within(list.items[k].element, len)
}

/// Every range of the board lies inside a source of `len` bytes.
pub open spec fn board_within(board: Seq<Span<ListView>>, len: int) -> bool {
    forall|k: int|
        0 <= k < board.len() ==> within((#[trigger] board[k]).range, len) && list_within(
            board[k].element,
            len,
        )
}

/// An item that goes back to events inside the source lies inside it.
proof fn lemma_item_within(events: Seq<Event>, item: ItemView, len: int)
    requires
        item_traced(events, item),
        events_within(events, len),
    ensures
        item_within(item, len),
    decreases item,
{
    assert forall|j: int| 0 <= j < item.contents.len() implies within(
        #[trigger] item.contents[j],
        len,
    ) by {
        let stored = item.contents[j];
        assert(non_empty(stored));
        assert(holds(stored, stored.end - 1));
        assert(covers(item.contents, stored.end - 1));
        assert(content_at(events, stored.end - 1));
    }
    if let Some(nested) = item.nested_list {
        lemma_list_within(events, nested.element, len);
    }
}

/// A list that goes back to events inside the source lies inside it.
proof fn lemma_list_within(events: Seq<Event>, list: ListView, len: int)
    requires
        list_traced(events, list),
        events_within(events, len),
    ensures
        list_within(list, len),
    decreases list,
{
    assert forall|k: int| 0 <= k < list.items.len() implies within(
        (#[trigger] list.items[k]).range,
        len,
    ) && item_within(list.items[k].element, len) by {
        lemma_item_within(events, list.items[k].element, len);
    }
}

/// Where every event points into the source, so does every range of the
/// parsed board: each span and each stored range of contents can be sliced
/// out of the source.
pub proof fn lemma_parse_within(events: Seq<Event>, board: Seq<Span<ListView>>, len: int)
    requires
        parse_spec(events) == Ok::<Seq<Span<ListView>>, ParseError>(board),
        events_within(events, len),
    ensures
        board_within(board, len),
{
    lemma_parse_traced(events, board);
    assert forall|k: int| 0 <= k < board.len() implies within((#[trigger] board[k]).range, len)
        && list_within(board[k].element, len) by {
        lemma_list_within(events, board[k].element, len);
    }
}

/// Parsing is a function of the event stream: two parses of the same stream
/// end alike, with the same error or with boards of the same shape, ranges
/// and checkbox states.
pub proof fn lemma_parse_deterministic(
    events: Seq<Event>,
    first: Result<Board, ParseError>,
    second: Result<Board, ParseError>,
)
    requires
        outcome_view(first) == parse_spec(events),
        outcome_view(second) == parse_spec(events),
    ensures
        outcome_view(first) == outcome_view(second),
{
}

} // verus!
