//! Layouts: what a value looks like in memory, as far as dropping it depends on that.
use vstd::prelude::*;

verus! {

/// A layout of the interner, by its position there.
#[derive(Clone, Copy, Debug, PartialEq, Eq)]
pub struct InLayout(pub usize);

/// The shape of a value. Dropping a value looks only into structs and boxes.
#[derive(Clone, Copy, Debug, PartialEq, Eq)]
pub enum Layout<'a> {
    Builtin,
    Struct { field_layouts: &'a [InLayout] },
    Boxed(InLayout),
    Union,
    LambdaSet,
    RecursivePointer,
}

/// A layout together with whether values of it are, or contain, reference counted values.
#[derive(Clone, Copy, Debug, PartialEq, Eq)]
pub struct LayoutEntry<'a> {
    pub layout: Layout<'a>,
    pub contains_refcounted: bool,
}

/// The layouts of a program.
#[derive(Debug)]
pub struct STLayoutInterner<'a> {
    entries: Vec<LayoutEntry<'a>>,
}

impl<'a> View for STLayoutInterner<'a> {
    type V = Seq<LayoutEntry<'a>>;

    closed spec fn view(&self) -> Seq<LayoutEntry<'a>> {
        self.entries@
    }
}

impl<'a> STLayoutInterner<'a> {
    /// An interner without layouts.
    pub fn new() -> (interner: STLayoutInterner<'a>)
        ensures
            interner@ == Seq::<LayoutEntry<'a>>::empty(),
    {
        STLayoutInterner { entries: Vec::new() }
    }

    /// Adds a layout and returns where it is.
    pub fn insert(&mut self, entry: LayoutEntry<'a>) -> (in_layout: InLayout)
        ensures
            final(self)@ == old(self)@.push(entry),
            in_layout.0 == old(self)@.len(),
    {
        let position = self.entries.len();
        self.entries.push(entry);
        InLayout(position)
    }

    /// The layout at a position.
    pub fn get(&self, in_layout: InLayout) -> (layout: Layout<'a>)
        requires
            in_layout.0 < self@.len(),
        ensures
            layout == self@[in_layout.0 as int].layout,
    {
        self.entries[in_layout.0].layout
    }

    /// Whether values of the layout are, or contain, reference counted values.
    pub fn contains_refcounted(&self, in_layout: InLayout) -> (refcounted: bool)
        requires
            in_layout.0 < self@.len(),
        ensures
            refcounted == self@[in_layout.0 as int].contains_refcounted,
    {
        self.entries[in_layout.0].contains_refcounted
    }
}

} // verus!
