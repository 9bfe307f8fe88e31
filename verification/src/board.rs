//! The board: checklists of items, each node with the range of the source it
//! was read from.

use crate::range::{slice_source, within, Range};
use crate::rangeset::RangeSet;
use vstd::prelude::*;

verus! {

/// A value together with the range of the source it was derived from.
#[derive(Debug, PartialEq, Eq)]
pub struct Span<T> {
    pub element: T,
    pub range: Range,
}

/// One entry of a checklist.
#[derive(Debug, PartialEq, Eq)]
pub struct Item {
    /// The state of the checkbox, where the item has one.
    pub checkbox: Option<Span<bool>>,
    /// The bytes of text that belong to the item itself, not to a list
    /// nested in it.
    pub contents: RangeSet,
    /// The list nested in the item, if any; an item holds at most one.
    pub nested_list: Option<Span<List>>,
}

/// A checklist: its items in the order of the document.
#[derive(Debug, PartialEq, Eq)]
pub struct List {
    pub items: Vec<Span<Item>>,
}

/// The top-level lists of a document, in its order.
#[derive(Debug, PartialEq, Eq)]
pub struct Board {
    pub lists: Vec<Span<List>>,
}

/// An item as a mathematical value.
pub struct ItemView {
    pub checkbox: Option<Span<bool>>,
    pub contents: Seq<Range>,
    pub nested_list: Option<Span<ListView>>,
}

/// A list as a mathematical value.
pub struct ListView {
    pub items: Seq<Span<ItemView>>,
}

/// The item as a mathematical value: its nested list is taken by its own
/// value, all the way down.
pub open spec fn item_view(item: Item) -> ItemView
    decreases item,
{
    ItemView {
        checkbox: item.checkbox,
        contents: item.contents@,
        nested_list: match item.nested_list {
            Some(nested) => Some(Span { element: list_view(nested.element), range: nested.range }),
            None => None,
        },
    }
}

/// The list as a mathematical value: each of its items is taken by its own
/// value, under the same range.
pub open spec fn list_view(list: List) -> ListView
    decreases list,
{
    ListView {
        items: Seq::new(
            list.items@.len(),
            |i: int|
                if 0 <= i < list.items@.len() {
                    Span { element: item_view(list.items@[i].element), range: list.items@[i].range }
                } else {
                    arbitrary()
                },
        ),
    }
}

impl View for Item {
    type V = ItemView;

    open spec fn view(&self) -> ItemView {
        item_view(*self)
    }
}

impl View for List {
    type V = ListView;

    open spec fn view(&self) -> ListView {
        list_view(*self)
    }
}

impl View for Board {
    type V = Seq<Span<ListView>>;

    open spec fn view(&self) -> Seq<Span<ListView>> {
        Seq::new(self.lists@.len(), |i: int| list_span_view(self.lists@[i]))
    }
}

/// A finished list as a mathematical value, under its range.
pub open spec fn list_span_view(span: Span<List>) -> Span<ListView> {
    Span { element: span.element@, range: span.range }
}

/// A finished item as a mathematical value, under its range.
pub open spec fn item_span_view(span: Span<Item>) -> Span<ItemView> {
    Span { element: span.element@, range: span.range }
}

/// An item without checkbox, text or nested list.
pub open spec fn empty_item() -> ItemView {
    ItemView { checkbox: None, contents: Seq::empty(), nested_list: None }
}

/// A list without items.
pub open spec fn empty_list() -> ListView {
    ListView { items: Seq::empty() }
}

impl<T> Span<T> {
    /// The text that the span was read from: the bytes of `source` at the
    /// offsets of its range, or nothing where the range does not lie inside
    /// `source`.
    pub fn source<'a>(&self, source: &'a [u8]) -> (part: Option<&'a [u8]>)
        ensures
            part is Some <==> within(self.range, source@.len() as int),
            part matches Some(bytes) ==> bytes@ == source@.subrange(
                self.range.start as int,
                self.range.end as int,
            ),
    {
        slice_source(source, &self.range)
    }
}

impl Item {
    /// Wraps the finished item with the range of the source it was read from.
    pub fn span(self, range: Range) -> (span: Span<Item>)
        ensures
            span.element == self,
            span.range == range,
    {
        Span { element: self, range }
    }
}

impl List {
    /// Wraps the finished list with the range of the source it was read from.
    pub fn span(self, range: Range) -> (span: Span<List>)
        ensures
            span.element == self,
            span.range == range,
    {
        Span { element: self, range }
    }
}

impl Default for Item {
    fn default() -> (item: Item)
        ensures
            item@ == empty_item(),
    {
        Item { checkbox: None, contents: RangeSet::new(), nested_list: None }
    }
}

impl Default for List {
    fn default() -> (list: List)
        ensures
            list@ == empty_list(),
    {
        let list = List { items: Vec::new() };
        assert(list@.items =~= Seq::empty());
        list
    }
}

impl Default for Board {
    fn default() -> (board: Board)
        ensures
            board@ == Seq::<Span<ListView>>::empty(),
    {
        let board = Board { lists: Vec::new() };
        assert(board@ =~= Seq::empty());
        board
    }
}

} // verus!
