//! The board parser: one pass over the event stream, with a stack of open
//! lists and a stack of open items.

use crate::board::{
    empty_item, empty_list, item_span_view, list_span_view, Board, Item, ItemView, List, ListView,
    Span,
};
use crate::coverage::insert_spec;
use crate::event::{markdown_events, tokenize, Event, EventKind};
use crate::range::{non_empty, Range};
use vstd::prelude::*;

verus! {

/// Why an event stream is not the stream of a well-nested document.
#[derive(Clone, Copy, Debug, PartialEq, Eq, Structural)]
pub enum ParseError {
    /// A list ended inside an item that already holds a nested list.
    DuplicateNestedList,
    /// A second checkbox marker came for one item.
    DuplicateCheckbox,
    /// An event came with nothing open for it to apply to, or the stream
    /// ended with a list or an item still open.
    UnbalancedStructure,
}

/// All that the parser carries from one event to the next.
pub struct State {
    /// The lists that are open, innermost last.
    pub lists: Seq<ListView>,
    /// The items that are open, innermost last.
    pub items: Seq<ItemView>,
    /// The top-level lists finished so far.
    pub board: Seq<Span<ListView>>,
}

/// The state before the first event: nothing open, nothing finished.
pub open spec fn initial() -> State {
    State { lists: Seq::empty(), items: Seq::empty(), board: Seq::empty() }
}

/// `items` with its innermost item replaced by `item`.
pub open spec fn with_innermost(items: Seq<ItemView>, item: ItemView) -> Seq<ItemView> {
    items.update(items.len() - 1, item)
}

/// The state after a bullet list has ended at `range`: the innermost open
/// list is finished. It becomes the nested list of the innermost open item,
/// which must not hold one yet; with no item open it joins the board.
pub open spec fn end_list(state: State, range: Range) -> Result<State, ParseError> {
    if state.lists.len() == 0 {
        Err(ParseError::UnbalancedStructure)
    } else {
        let finished = Span { element: state.lists.last(), range };
        if state.items.len() == 0 {
            Ok(State { lists: state.lists.drop_last(), board: state.board.push(finished), ..state })
        } else if state.items.last().nested_list is Some {
            Err(ParseError::DuplicateNestedList)
        } else {
            Ok(
                State {
                    lists: state.lists.drop_last(),
                    items: with_innermost(
                        state.items,
                        ItemView { nested_list: Some(finished), ..state.items.last() },
                    ),
                    ..state
                },
            )
        }
    }
}

/// The state after an item has ended at `range`: the innermost open item is
/// finished and joins the innermost open list.
pub open spec fn end_item(state: State, range: Range) -> Result<State, ParseError> {
    if state.items.len() == 0 || state.lists.len() == 0 {
        Err(ParseError::UnbalancedStructure)
    } else {
        let finished = Span { element: state.items.last(), range };
        let list = ListView { items: state.lists.last().items.push(finished) };
        Ok(
            State {
                lists: state.lists.update(state.lists.len() - 1, list),
                items: state.items.drop_last(),
                ..state
            },
        )
    }
}

/// The state after a checkbox marker at `range`: the innermost open item,
/// which must not have a checkbox yet, gets one.
pub open spec fn mark_task(state: State, checked: bool, range: Range) -> Result<
    State,
    ParseError,
> {
    if state.items.len() == 0 {
        Err(ParseError::UnbalancedStructure)
    } else if state.items.last().checkbox is Some {
        Err(ParseError::DuplicateCheckbox)
    } else {
        let checkbox = Some(Span { element: checked, range });
        Ok(
            State {
                items: with_innermost(state.items, ItemView { checkbox, ..state.items.last() }),
                ..state
            },
        )
    }
}

/// The state after content at `range`: its offsets join the contents of the
/// innermost open item. Content outside every item is dropped, and a range
/// that holds no offset adds nothing.
pub open spec fn add_content(state: State, range: Range) -> State {
    if state.items.len() > 0 && non_empty(range) {
        let contents = insert_spec(state.items.last().contents, range);
        State {
            items: with_innermost(state.items, ItemView { contents, ..state.items.last() }),
            ..state
        }
    } else {
        state
    }
}

/// The state after one event, or the error that the event brings out. Only
/// bullet lists make checklists: the start and the end of an ordered list
/// count as content.
pub open spec fn step(state: State, event: Event) -> Result<State, ParseError> {
    match event.kind {
        EventKind::ListStart(None) => Ok(State { lists: state.lists.push(empty_list()), ..state }),
        EventKind::ListEnd(false) => end_list(state, event.range),
        EventKind::ItemStart => Ok(State { items: state.items.push(empty_item()), ..state }),
        EventKind::ItemEnd => end_item(state, event.range),
        EventKind::TaskMarker(checked) => mark_task(state, checked, event.range),
        _ => Ok(add_content(state, event.range)),
    }
}

/// The state after all of `events`, in order, or the first error among them.
pub open spec fn run(state: State, events: Seq<Event>) -> Result<State, ParseError>
    decreases events.len(),
{
    if events.len() == 0 {
        Ok(state)
    } else {
        match run(state, events.drop_last()) {
            Ok(reached) => step(reached, events.last()),
            Err(error) => Err(error),
        }
    }
}

/// The board that `events` describe: what is finished when the stream ends
/// with every list and item closed. A stream that leaves one open is
/// unbalanced.
pub open spec fn parse_spec(events: Seq<Event>) -> Result<Seq<Span<ListView>>, ParseError> {
    match run(initial(), events) {
        Ok(reached) => if reached.lists.len() == 0 && reached.items.len() == 0 {
            Ok(reached.board)
        } else {
            Err(ParseError::UnbalancedStructure)
        },
        Err(error) => Err(error),
    }
}

/// The outcome of a parse as a mathematical value.
pub open spec fn outcome_view(outcome: Result<Board, ParseError>) -> Result<
    Seq<Span<ListView>>,
    ParseError,
> {
    match outcome {
        Ok(board) => Ok(board@),
        Err(error) => Err(error),
    }
}

/// The open lists as mathematical values.
pub open spec fn list_views(lists: Seq<List>) -> Seq<ListView> {
    Seq::new(lists.len(), |i: int| lists[i]@)
}

/// The open items as mathematical values.
pub open spec fn item_views(items: Seq<Item>) -> Seq<ItemView> {
    Seq::new(items.len(), |i: int| items[i]@)
}

/// The parser's state while it runs.
struct Builder {
    lists: Vec<List>,
    items: Vec<Item>,
    board: Board,
}

impl View for Builder {
    type V = State;

    closed spec fn view(&self) -> State {
        State {
            lists: list_views(self.lists@),
            items: item_views(self.items@),
            board: self.board@,
        }
    }
}

impl Builder {
    /// Nothing open, nothing finished.
    fn new() -> (builder: Builder)
        ensures
            builder@ == initial(),
    {
        let builder = Builder { lists: Vec::new(), items: Vec::new(), board: Board::default() };
        assert(builder@.lists =~= Seq::empty());
        assert(builder@.items =~= Seq::empty());
        builder
    }

    /// Opens a list.
    fn start_list(&mut self)
        ensures
            final(self)@ == (State { lists: old(self)@.lists.push(empty_list()), ..old(self)@ }),
    {
        self.lists.push(List::default());
        assert(final(self)@.lists =~= old(self)@.lists.push(empty_list()));
    }

    /// Opens an item.
    fn start_item(&mut self)
        ensures
            final(self)@ == (State { items: old(self)@.items.push(empty_item()), ..old(self)@ }),
    {
        self.items.push(Item::default());
        assert(final(self)@.items =~= old(self)@.items.push(empty_item()));
    }

    /// Finishes the innermost open list and hands it to the innermost open
    /// item, or to the board where no item is open.
    fn end_list(&mut self, range: &Range) -> (outcome: Result<(), ParseError>)
        ensures
            match end_list(old(self)@, *range) {
                Ok(next) => outcome is Ok && final(self)@ == next,
                Err(error) => outcome == Err::<(), ParseError>(error),
            },
    {
        if self.lists.len() == 0 {
            return Err(ParseError::UnbalancedStructure);
        }
        let open: usize = self.items.len();
        if open > 0 && self.items[open - 1].nested_list.is_some() {
            return Err(ParseError::DuplicateNestedList);
        }
        let finished = self.lists.pop().unwrap().span(range.start..range.end);
        assert(self@.lists =~= old(self)@.lists.drop_last());
        assert(list_span_view(finished) == (Span {
            element: old(self)@.lists.last(),
            range: *range,
        }));
        if open == 0 {
            self.board.lists.push(finished);
            assert(self@.board =~= old(self)@.board.push(list_span_view(finished)));
        } else {
            let mut item = self.items.pop().unwrap();
            item.nested_list = Some(finished);
            self.items.push(item);
            assert(self@.items =~= with_innermost(
                old(self)@.items,
                ItemView {
                    nested_list: Some(list_span_view(finished)),
                    ..old(self)@.items.last()
                },
            ));
        }
        Ok(())
    }

    /// Finishes the innermost open item and appends it to the innermost open
    /// list.
    fn end_item(&mut self, range: &Range) -> (outcome: Result<(), ParseError>)
        ensures
            match end_item(old(self)@, *range) {
                Ok(next) => outcome is Ok && final(self)@ == next,
                Err(error) => outcome == Err::<(), ParseError>(error),
            },
    {
        if self.items.len() == 0 || self.lists.len() == 0 {
            return Err(ParseError::UnbalancedStructure);
        }
        let finished = self.items.pop().unwrap().span(range.start..range.end);
        assert(self@.items =~= old(self)@.items.drop_last());
        let mut list = self.lists.pop().unwrap();
        let ghost before = list;
        list.items.push(finished);
        assert(list@.items =~= before@.items.push(item_span_view(finished)));
        self.lists.push(list);
        assert(self@.lists =~= old(self)@.lists.update(
            old(self)@.lists.len() - 1,
            ListView { items: old(self)@.lists.last().items.push(item_span_view(finished)) },
        ));
        Ok(())
    }

    /// Gives the innermost open item its checkbox.
    fn mark_task(&mut self, checked: bool, range: &Range) -> (outcome: Result<(), ParseError>)
        ensures
            match mark_task(old(self)@, checked, *range) {
                Ok(next) => outcome is Ok && final(self)@ == next,
                Err(error) => outcome == Err::<(), ParseError>(error),
            },
    {
        let open: usize = self.items.len();
        if open == 0 {
            return Err(ParseError::UnbalancedStructure);
        }
        if self.items[open - 1].checkbox.is_some() {
            return Err(ParseError::DuplicateCheckbox);
        }
        let mut item = self.items.pop().unwrap();
        item.checkbox = Some(Span { element: checked, range: range.start..range.end });
        self.items.push(item);
        assert(self@.items =~= with_innermost(
            old(self)@.items,
            ItemView {
                checkbox: Some(Span { element: checked, range: *range }),
                ..old(self)@.items.last()
            },
        ));
        Ok(())
    }

    /// Adds the offsets of `range` to the contents of the innermost open
    /// item, if there is one.
    fn add_content(&mut self, range: &Range)
        ensures
            final(self)@ == add_content(old(self)@, *range),
    {
        if self.items.len() > 0 && range.start < range.end {
            let mut item = self.items.pop().unwrap();
            item.contents.insert_range(range);
            self.items.push(item);
            assert(self@.items =~= with_innermost(
                old(self)@.items,
                ItemView {
                    contents: insert_spec(old(self)@.items.last().contents, *range),
                    ..old(self)@.items.last()
                },
            ));
        }
    }

    /// Takes one event.
    fn step(&mut self, event: &Event) -> (outcome: Result<(), ParseError>)
        ensures
            match step(old(self)@, *event) {
                Ok(next) => outcome is Ok && final(self)@ == next,
                Err(error) => outcome == Err::<(), ParseError>(error),
            },
    {
        match event.kind {
            EventKind::ListStart(None) => {
                self.start_list();
                Ok(())
            },
            EventKind::ListEnd(false) => self.end_list(&event.range),
            EventKind::ItemStart => {
                self.start_item();
                Ok(())
            },
            EventKind::ItemEnd => self.end_item(&event.range),
            EventKind::TaskMarker(checked) => self.mark_task(checked, &event.range),
            _ => {
                self.add_content(&event.range);
                Ok(())
            },
        }
    }

    /// Hands out the board, provided that nothing is left open.
    fn finish(self) -> (outcome: Result<Board, ParseError>)
        ensures
            outcome_view(outcome) == if self@.lists.len() == 0 && self@.items.len() == 0 {
                Ok::<Seq<Span<ListView>>, ParseError>(self@.board)
            } else {
                Err::<Seq<Span<ListView>>, ParseError>(ParseError::UnbalancedStructure)
            },
    {
        if self.lists.len() == 0 && self.items.len() == 0 {
            Ok(self.board)
        } else {
            Err(ParseError::UnbalancedStructure)
        }
    }
}

impl Board {
    /// Builds the board that an event stream describes. The stream is
    /// expected to be well nested; one that is not gives the error of its
    /// first offending event, or `UnbalancedStructure` where it ends with a
    /// list or an item still open.
    pub fn from_events(events: &[Event]) -> (outcome: Result<Board, ParseError>)
        ensures
            outcome_view(outcome) == parse_spec(events@),
    {
        let mut builder = Builder::new();
        let mut i: usize = 0;
        while i < events.len()
            invariant
                i <= events@.len(),
                run(initial(), events@.subrange(0, i as int)) == Ok::<State, ParseError>(builder@),
            decreases events@.len() - i,
        {
            proof {
                let upto = events@.subrange(0, i + 1);
                assert(upto.drop_last() == events@.subrange(0, i as int));
                assert(upto.last() == events@[i as int]);
            }
            match builder.step(&events[i]) {
                Ok(()) => {},
                Err(error) => {
                    proof {
                        lemma_run_error_stays(initial(), events@, i + 1);
                    }
                    return Err(error);
                },
            }
            i += 1;
        }
        assert(events@.subrange(0, i as int) == events@);
        builder.finish()
    }

    /// Reads the board of a markdown text: tokenizes it and builds the board
    /// from the events.
    pub fn parse(input: &str) -> (outcome: Result<Board, ParseError>)
        ensures
            outcome_view(outcome) == parse_spec(markdown_events(input@)),
    {
        let events = tokenize(input);
        Board::from_events(events.as_slice())
    }
}

/// Once a prefix of the stream has failed, the whole stream fails with the
/// same error.
pub proof fn lemma_run_error_stays(state: State, events: Seq<Event>, failed: int)
    requires
        0 <= failed <= events.len(),
        run(state, events.subrange(0, failed)) is Err,
    ensures
        run(state, events) == run(state, events.subrange(0, failed)),
    decreases events.len(),
{
    if failed == events.len() {
        assert(events.subrange(0, failed) == events);
    } else {
        assert(events.drop_last().subrange(0, failed) == events.subrange(0, failed));
        lemma_run_error_stays(state, events.drop_last(), failed);
    }
}

} // verus!
