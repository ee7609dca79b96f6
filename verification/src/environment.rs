//! What is known at a point of a program: the layouts of symbols, which symbol was indexed out
//! of which, and the increments that are still to be performed.
//!
//! Symbols are kept by their bits.
use crate::arena::{
    struct_child_list, struct_child_list_as_slice, struct_child_list_new_in,
    struct_child_list_push, symbol_list, symbol_list_as_slice, symbol_list_new_in,
    symbol_list_push, union_child_list, union_child_list_as_slice, union_child_list_new_in,
    union_child_list_push,
};
use crate::layout::InLayout;
use crate::symbol::{IdentId, IdentIds, ModuleId, Symbol};
use bumpalo::Bump;
use std::collections::HashMap;
use vstd::prelude::*;

verus! {

broadcast use vstd::std_specs::hash::group_hash_axioms;

/// The field that a child was indexed out of.
pub type Index = u64;

/// The symbol that a child was indexed out of.
pub type Parent = u64;

/// A symbol that was indexed out of another one.
pub type Child = u64;

/// How many increments of a symbol are outstanding.
pub open spec fn outstanding(increments: Map<u64, u64>, symbol: u64) -> nat {
    if increments.contains_key(symbol) {
        increments[symbol] as nat
    } else {
        0
    }
}

/// The increments after some more of a symbol.
pub open spec fn increments_added(increments: Map<u64, u64>, symbol: u64, count: u64) -> Map<
    u64,
    u64,
> {
    increments.insert(symbol, (outstanding(increments, symbol) + count) as u64)
}

/// Whether one increment can be taken off a symbol, or none is known of it. A symbol that was
/// incremented by zero has an entry and nothing to take off.
pub open spec fn can_pop(increments: Map<u64, u64>, symbol: u64) -> bool {
    increments.contains_key(symbol) ==> increments[symbol] != 0
}

/// The increments after one of a symbol was taken off, if there was one. The last one takes the
/// entry with it.
pub open spec fn increment_popped(increments: Map<u64, u64>, symbol: u64) -> Map<u64, u64> {
    if !increments.contains_key(symbol) {
        increments
    } else if increments[symbol] == 1 {
        increments.remove(symbol)
    } else {
        increments.insert(symbol, (increments[symbol] - 1) as u64)
    }
}

/// The contents of an environment.
#[verifier::ext_equal]
pub struct EnvironmentView {
    pub home: ModuleId,
    pub symbol_layouts: Map<u64, InLayout>,
    pub struct_children: Map<Parent, Seq<(Child, Index)>>,
    pub union_children: Map<Parent, Seq<(Child, u16, Index)>>,
    pub box_children: Map<Parent, Seq<Child>>,
    pub incremented_symbols: Map<u64, u64>,
}

impl EnvironmentView {
    /// Nothing is known.
    pub open spec fn empty(home: ModuleId) -> EnvironmentView {
        EnvironmentView {
            home,
            symbol_layouts: Map::empty(),
            struct_children: Map::empty(),
            union_children: Map::empty(),
            box_children: Map::empty(),
            incremented_symbols: Map::empty(),
        }
    }

    /// The same with other increments.
    pub open spec fn with_increments(self, increments: Map<u64, u64>) -> EnvironmentView {
        EnvironmentView { incremented_symbols: increments, ..self }
    }

    /// The same without increments.
    pub open spec fn without_incremented(self) -> EnvironmentView {
        self.with_increments(Map::empty())
    }

    pub open spec fn with_symbol_layout(self, symbol: Symbol, layout: InLayout) -> EnvironmentView {
        EnvironmentView {
            symbol_layouts: self.symbol_layouts.insert(symbol.bits, layout),
            ..self
        }
    }

    pub open spec fn struct_children_of(self, parent: Symbol) -> Seq<(Child, Index)> {
        if self.struct_children.contains_key(parent.bits) {
            self.struct_children[parent.bits]
        } else {
            Seq::empty()
        }
    }

    pub open spec fn union_children_of(self, parent: Symbol) -> Seq<(Child, u16, Index)> {
        if self.union_children.contains_key(parent.bits) {
            self.union_children[parent.bits]
        } else {
            Seq::empty()
        }
    }

    pub open spec fn box_children_of(self, parent: Symbol) -> Seq<Child> {
        if self.box_children.contains_key(parent.bits) {
            self.box_children[parent.bits]
        } else {
            Seq::empty()
        }
    }

    /// All that was indexed out of a symbol: the struct children, then the union children, then
    /// the box children, each in the order in which they were bound.
    pub open spec fn children_of(self, parent: Symbol) -> Seq<Child> {
        self.struct_children_of(parent).map_values(|child: (Child, Index)| child.0)
            + self.union_children_of(parent).map_values(|child: (Child, u16, Index)| child.0)
            + self.box_children_of(parent)
    }

    pub open spec fn with_struct_child(
        self,
        parent: Symbol,
        child: Symbol,
        index: Index,
    ) -> EnvironmentView {
        EnvironmentView {
            struct_children: self.struct_children.insert(
                parent.bits,
                self.struct_children_of(parent).push((child.bits, index)),
            ),
            ..self
        }
    }

    pub open spec fn with_union_child(
        self,
        parent: Symbol,
        child: Symbol,
        tag: u16,
        index: Index,
    ) -> EnvironmentView {
        EnvironmentView {
            union_children: self.union_children.insert(
                parent.bits,
                self.union_children_of(parent).push((child.bits, tag, index)),
            ),
            ..self
        }
    }

    pub open spec fn with_box_child(self, parent: Symbol, child: Symbol) -> EnvironmentView {
        EnvironmentView {
            box_children: self.box_children.insert(
                parent.bits,
                self.box_children_of(parent).push(child.bits),
            ),
            ..self
        }
    }
}

/// What is known at a point of a program.
pub struct DropSpecializationEnvironment<'a> {
    arena: &'a Bump,
    home: ModuleId,
    symbol_layouts: HashMap<u64, InLayout>,
    // Which symbols were indexed out of a struct, and out of which field.
    struct_children: HashMap<Parent, bumpalo::collections::Vec<'a, (Child, Index)>>,
    // Which symbols were indexed out of a union, and out of which tag and field.
    union_children: HashMap<Parent, bumpalo::collections::Vec<'a, (Child, u16, Index)>>,
    // Which symbols were taken out of a box.
    box_children: HashMap<Parent, bumpalo::collections::Vec<'a, Child>>,
    // The increments that are outstanding.
    incremented_symbols: HashMap<u64, u64>,
}

impl<'a> View for DropSpecializationEnvironment<'a> {
    type V = EnvironmentView;

    closed spec fn view(&self) -> EnvironmentView {
        EnvironmentView {
            home: self.home,
            symbol_layouts: self.symbol_layouts@,
            struct_children: self.struct_children@.map_values(
                |list: bumpalo::collections::Vec<'a, (Child, Index)>| struct_child_list(list),
            ),
            union_children: self.union_children@.map_values(
                |list: bumpalo::collections::Vec<'a, (Child, u16, Index)>| union_child_list(list),
            ),
            box_children: self.box_children@.map_values(
                |list: bumpalo::collections::Vec<'a, Child>| symbol_list(list),
            ),
            incremented_symbols: self.incremented_symbols@,
        }
    }
}

impl<'a> Clone for DropSpecializationEnvironment<'a> {
    fn clone(&self) -> (environment: Self)
        ensures
            environment@ == self@,
    {
        DropSpecializationEnvironment {
            arena: self.arena,
            home: self.home,
            symbol_layouts: self.symbol_layouts.clone(),
            struct_children: self.struct_children.clone(),
            union_children: self.union_children.clone(),
            box_children: self.box_children.clone(),
            incremented_symbols: self.incremented_symbols.clone(),
        }
    }
}

impl<'a> DropSpecializationEnvironment<'a> {
    /// An environment in which nothing is known.
    pub fn new(arena: &'a Bump, home: ModuleId) -> (environment: Self)
        ensures
            environment@ == EnvironmentView::empty(home),
    {
        let environment = DropSpecializationEnvironment {
            arena,
            home,
            symbol_layouts: HashMap::new(),
            struct_children: HashMap::new(),
            union_children: HashMap::new(),
            box_children: HashMap::new(),
            incremented_symbols: HashMap::new(),
        };
        assert(environment@ =~= EnvironmentView::empty(home));
        environment
    }

    /// A copy that has forgotten all increments.
    pub fn clone_without_incremented(&self) -> (environment: Self)
        ensures
            environment@ == self@.without_incremented(),
    {
        let environment = DropSpecializationEnvironment {
            arena: self.arena,
            home: self.home,
            symbol_layouts: self.symbol_layouts.clone(),
            struct_children: self.struct_children.clone(),
            union_children: self.union_children.clone(),
            box_children: self.box_children.clone(),
            incremented_symbols: HashMap::new(),
        };
        assert(environment@ =~= self@.without_incremented());
        environment
    }

    /// A symbol with a new name of the home module.
    pub fn create_symbol(&self, ident_ids: &mut IdentIds, debug_name: &str) -> (symbol: Symbol)
        requires
            old(ident_ids)@.len() <= u32::MAX,
        ensures
            final(ident_ids)@ == old(ident_ids)@.push(debug_name@),
            symbol == fresh_symbol(self@.home, old(ident_ids)@),
    {
        let ident_id = ident_ids.add_str(debug_name);
        Symbol::new(self.home, ident_id)
    }

    pub fn add_symbol_layout(&mut self, symbol: Symbol, layout: InLayout)
        ensures
            final(self)@ == old(self)@.with_symbol_layout(symbol, layout),
    {
        self.symbol_layouts.insert(symbol.bits, layout);
        assert(self@ =~= old(self)@.with_symbol_layout(symbol, layout));
    }

    /// The layout of a symbol, which must be known.
    pub fn get_symbol_layout(&self, symbol: &Symbol) -> (layout: InLayout)
        requires
            self@.symbol_layouts.contains_key(symbol.bits),
        ensures
            layout == self@.symbol_layouts[symbol.bits],
    {
        *self.symbol_layouts.get(&symbol.bits).unwrap()
    }

    pub fn add_struct_child(&mut self, parent: Symbol, child: Symbol, index: Index)
        ensures
            final(self)@ == old(self)@.with_struct_child(parent, child, index),
    {
        let empty = struct_child_list_new_in(self.arena);
        let list = self.struct_children.entry(parent.bits).or_insert(empty);
        struct_child_list_push(list, (child.bits, index));
        assert(self@ =~= old(self)@.with_struct_child(parent, child, index));
    }

    pub fn add_union_child(&mut self, parent: Symbol, child: Symbol, tag: u16, index: Index)
        ensures
            final(self)@ == old(self)@.with_union_child(parent, child, tag, index),
    {
        let empty = union_child_list_new_in(self.arena);
        let list = self.union_children.entry(parent.bits).or_insert(empty);
        union_child_list_push(list, (child.bits, tag, index));
        assert(self@ =~= old(self)@.with_union_child(parent, child, tag, index));
    }

    pub fn add_box_child(&mut self, parent: Symbol, child: Symbol)
        ensures
            final(self)@ == old(self)@.with_box_child(parent, child),
    {
        let empty = symbol_list_new_in(self.arena);
        let list = self.box_children.entry(parent.bits).or_insert(empty);
        symbol_list_push(list, child.bits);
        assert(self@ =~= old(self)@.with_box_child(parent, child));
    }

    /// The struct children of a symbol, if it has a list of them.
    pub(crate) fn get_struct_children(&self, parent: &Symbol) -> (children: Option<
        &[(Child, Index)],
    >)
        ensures
            children is Some <==> self@.struct_children.contains_key(parent.bits),
            children is Some ==> children->0@ == self@.struct_children[parent.bits],
    {
        match self.struct_children.get(&parent.bits) {
            Some(list) => Some(struct_child_list_as_slice(list)),
            None => None,
        }
    }

    /// All that was indexed out of a symbol.
    pub fn get_children(&self, parent: &Symbol) -> (children: bumpalo::collections::Vec<'a, Child>)
        ensures
            symbol_list(children) == self@.children_of(*parent),
    {
        let mut res = symbol_list_new_in(self.arena);
        let ghost struct_part = self@.struct_children_of(*parent).map_values(
            |child: (Child, Index)| child.0,
        );
        let ghost union_part = self@.union_children_of(*parent).map_values(
            |child: (Child, u16, Index)| child.0,
        );
        let ghost box_part = self@.box_children_of(*parent);

        if let Some(list) = self.struct_children.get(&parent.bits) {
            let children = struct_child_list_as_slice(list);
            let mut i: usize = 0;
            while i < children.len()
                invariant
                    i <= children@.len(),
                    children@ == self@.struct_children_of(*parent),
                    struct_part == children@.map_values(|child: (Child, Index)| child.0),
                    symbol_list(res) == struct_part.take(i as int),
                decreases children@.len() - i,
            {
                symbol_list_push(&mut res, children[i].0);
                i += 1;
                assert(struct_part.take(i as int) =~= struct_part.take(i - 1).push(
                    struct_part[i - 1],
                ));
            }
        }
        assert(symbol_list(res) =~= struct_part);

        if let Some(list) = self.union_children.get(&parent.bits) {
            let children = union_child_list_as_slice(list);
            let mut i: usize = 0;
            while i < children.len()
                invariant
                    i <= children@.len(),
                    children@ == self@.union_children_of(*parent),
                    union_part == children@.map_values(|child: (Child, u16, Index)| child.0),
                    symbol_list(res) =~= struct_part + union_part.take(i as int),
                decreases children@.len() - i,
            {
                symbol_list_push(&mut res, children[i].0);
                i += 1;
                assert(union_part.take(i as int) =~= union_part.take(i - 1).push(
                    union_part[i - 1],
                ));
            }
        }
        assert(symbol_list(res) =~= struct_part + union_part);

        if let Some(list) = self.box_children.get(&parent.bits) {
            let children = symbol_list_as_slice(list);
            let mut i: usize = 0;
            while i < children.len()
                invariant
                    i <= children@.len(),
                    children@ == box_part,
                    symbol_list(res) =~= struct_part + union_part + box_part.take(i as int),
                decreases children@.len() - i,
            {
                symbol_list_push(&mut res, children[i]);
                i += 1;
                assert(box_part.take(i as int) =~= box_part.take(i - 1).push(box_part[i - 1]));
            }
        }
        assert(symbol_list(res) =~= struct_part + union_part + box_part);

        res
    }

    /// Notes increments of a symbol.
    pub fn add_incremented(&mut self, symbol: Symbol, count: u64)
        requires
            outstanding(old(self)@.incremented_symbols, symbol.bits) + count <= u64::MAX,
        ensures
            final(self)@ == old(self)@.with_increments(
                increments_added(old(self)@.incremented_symbols, symbol.bits, count),
            ),
    {
        let before: u64 = match self.incremented_symbols.get(&symbol.bits) {
            Some(c) => *c,
            None => 0,
        };
        self.incremented_symbols.insert(symbol.bits, before + count);
        assert(self@ =~= old(self)@.with_increments(
            increments_added(old(self)@.incremented_symbols, symbol.bits, count),
        ));
    }

    /// Whether increments of a symbol are noted.
    pub fn any_incremented(&self, symbol: &Symbol) -> (any: bool)
        ensures
            any == self@.incremented_symbols.contains_key(symbol.bits),
    {
        self.incremented_symbols.contains_key(&symbol.bits)
    }

    /// Takes all increments of a symbol off and returns how many there were.
    pub fn get_incremented(&mut self, symbol: &Symbol) -> (count: u64)
        ensures
            count == outstanding(old(self)@.incremented_symbols, symbol.bits),
            final(self)@ == old(self)@.with_increments(
                old(self)@.incremented_symbols.remove(symbol.bits),
            ),
    {
        let count: u64 = match self.incremented_symbols.remove(&symbol.bits) {
            Some(c) => c,
            None => 0,
        };
        assert(self@ =~= old(self)@.with_increments(
            old(self)@.incremented_symbols.remove(symbol.bits),
        ));
        count
    }

    /// Takes one increment of a symbol off, if there is one, and returns whether there was.
    pub fn pop_incremented(&mut self, symbol: &Symbol) -> (popped: bool)
        requires
            can_pop(old(self)@.incremented_symbols, symbol.bits),
        ensures
            popped == old(self)@.incremented_symbols.contains_key(symbol.bits),
            final(self)@ == old(self)@.with_increments(
                increment_popped(old(self)@.incremented_symbols, symbol.bits),
            ),
    {
        let before: Option<u64> = match self.incremented_symbols.get(&symbol.bits) {
            Some(c) => Some(*c),
            None => None,
        };
        let popped = match before {
            Some(1) => {
                self.incremented_symbols.remove(&symbol.bits);
                true
            },
            Some(c) => {
                self.incremented_symbols.insert(symbol.bits, c - 1);
                true
            },
            None => false,
        };
        assert(self@ =~= old(self)@.with_increments(
            increment_popped(old(self)@.incremented_symbols, symbol.bits),
        ));
        popped
    }
}

/// The symbol of the next name of a module.
pub open spec fn fresh_symbol(home: ModuleId, names: Seq<Seq<char>>) -> Symbol {
    Symbol::spec_new(home, IdentId(names.len() as u32))
}

} // verus!
