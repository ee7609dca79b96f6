//! The pass itself.
use crate::arena::symbol_list_as_slice;
use crate::environment::{Child, DropSpecializationEnvironment, EnvironmentView, Index};
use crate::ir::{Branches, Expr, ModifyRc, Proc, ProcLayout, Stmt, UpdateModeIds};
use crate::laws::procedures::procedures_keep_all_but_their_bodies;
use crate::layout::{InLayout, Layout, LayoutEntry, STLayoutInterner};
use crate::rewriting::{
    can_restore, child_of_field, children_of_fields, dec_prepared, env_with_arguments,
    env_with_parameters, fields_released, first_in, increments_popped, increments_restored,
    keys_are_distinct, rewritten, rewritten_branches, rewritten_proc, rewritten_procs, Rewritten,
};
use crate::symbol::{format_field_name, IdentIds, ModuleId, Symbol};
use bumpalo::Bump;
use std::collections::HashSet;
use vstd::prelude::*;

verus! {

broadcast use vstd::std_specs::hash::group_hash_axioms;

proof fn popped_symbols_are_listed(increments: Map<u64, u64>, symbols: Seq<u64>)
    requires
        increments_popped(increments, symbols) is Some,
    ensures
        forall|symbol: u64| #[trigger]
            (increments_popped(increments, symbols)->0).1.contains(symbol) ==> symbols.contains(
                symbol,
            ),
    decreases symbols.len(),
{
    if symbols.len() > 0 {
        popped_symbols_are_listed(increments, symbols.drop_last());
        assert forall|symbol: u64| #[trigger]
            (increments_popped(increments, symbols)->0).1.contains(symbol) implies symbols.contains(
            symbol,
        ) by {
            if symbol == symbols.last() {
                assert(symbols[symbols.len() - 1] == symbol);
            } else {
                let i = symbols.drop_last().index_of(symbol);
                assert(symbols.drop_last().contains(symbol));
                assert(symbols[i] == symbol);
            }
        }
    }
}

proof fn popping_is_defined_on_prefixes(increments: Map<u64, u64>, symbols: Seq<u64>, count: int)
    requires
        0 <= count <= symbols.len(),
        increments_popped(increments, symbols) is Some,
    ensures
        increments_popped(increments, symbols.take(count)) is Some,
    decreases symbols.len() - count,
{
    if count < symbols.len() {
        popping_is_defined_on_prefixes(increments, symbols, count + 1);
        assert(symbols.take(count + 1).drop_last() =~= symbols.take(count));
    } else {
        assert(symbols.take(count) =~= symbols);
    }
}

/// Takes one increment off each of some children and returns those that had one.
fn pop_children<'a>(
    environment: &mut DropSpecializationEnvironment<'a>,
    children: &[Child],
) -> (incremented: HashSet<Child>)
    requires
        increments_popped(old(environment)@.incremented_symbols, children@) is Some,
    ensures
        ({
            let (left, popped) = increments_popped(
                old(environment)@.incremented_symbols,
                children@,
            )->0;
            final(environment)@ == old(environment)@.with_increments(left) && incremented@ == popped
        }),
{
    let mut incremented: HashSet<Child> = HashSet::new();
    let mut i: usize = 0;
    assert(children@.take(0) =~= Seq::<u64>::empty());
    assert(environment@ =~= environment@.with_increments(environment@.incremented_symbols));
    while i < children.len()
        invariant
            i <= children@.len(),
            increments_popped(old(environment)@.incremented_symbols, children@) is Some,
            increments_popped(
                old(environment)@.incremented_symbols,
                children@.take(i as int),
            ) == Some((environment@.incremented_symbols, incremented@)),
            environment@ == old(environment)@.with_increments(environment@.incremented_symbols),
        decreases children@.len() - i,
    {
        let child = Symbol { bits: children[i] };
        proof {
            popping_is_defined_on_prefixes(
                old(environment)@.incremented_symbols,
                children@,
                i + 1,
            );
            assert(children@.take(i + 1).drop_last() =~= children@.take(i as int));
        }
        if environment.pop_incremented(&child) {
            incremented.insert(child.bits);
        }
        i += 1;
    }
    assert(children@.take(i as int) =~= children@);
    incremented
}

/// Notes one increment of each of some children.
fn restore_children<'a>(
    environment: &mut DropSpecializationEnvironment<'a>,
    children: &[Child],
    restored: HashSet<Child>,
)
    requires
        can_restore(old(environment)@.incremented_symbols, restored@),
        forall|child: Child| #[trigger]
            restored@.contains(child) ==> children@.contains(child),
    ensures
        final(environment)@ == old(environment)@.with_increments(
            increments_restored(old(environment)@.incremented_symbols, restored@),
        ),
{
    let ghost before = environment@.incremented_symbols;
    let ghost all = restored@;
    let mut left = restored;
    let mut i: usize = 0;
    assert(environment@ =~= environment@.with_increments(environment@.incremented_symbols));
    assert(environment@.incremented_symbols =~= increments_restored(before, all.difference(left@)));
    while i < children.len()
        invariant
            i <= children@.len(),
            can_restore(before, all),
            environment@ == old(environment)@.with_increments(environment@.incremented_symbols),
            environment@.incremented_symbols =~= increments_restored(before, all.difference(left@)),
            forall|child: Child| #[trigger] left@.contains(child) ==> all.contains(child),
            forall|child: Child| #[trigger]
                left@.contains(child) ==> exists|j: int|
                    i <= j < children@.len() && children@[j] == child,
        decreases children@.len() - i,
    {
        let child = Symbol { bits: children[i] };
        let ghost left_before = left@;
        if left.remove(&child.bits) {
            assert(!all.difference(left_before).contains(child.bits));
            environment.add_incremented(child, 1);
        }
        assert forall|c: Child| #[trigger] left@.contains(c) implies exists|j: int|
            i + 1 <= j < children@.len() && children@[j] == c by {
            assert(left_before.contains(c));
            let j = choose|j: int| i <= j < children@.len() && children@[j] == c;
            assert(j != i);
        }
        i += 1;
    }
    assert(all.difference(left@) =~= all);
}

/// Finds the symbols that stand for the fields of a struct, and takes the children whose
/// increment is used up out of those that were incremented.
fn find_children_of_fields(
    children: &[(Child, Index)],
    count: usize,
    incremented: &mut HashSet<Child>,
) -> (found: (Vec<Option<Child>>, HashSet<Child>))
    ensures
        children_of_fields(children@, count as nat, old(incremented)@) == (found.0@, found.1@),
        found.0@.len() == count,
        final(incremented)@ == old(incremented)@.difference(found.1@),
{
    let mut index_symbols: Vec<Option<Child>> = Vec::new();
    let mut popped_symbols: HashSet<Child> = HashSet::new();
    let mut index: usize = 0;
    assert(incremented@ =~= old(incremented)@.difference(popped_symbols@));
    assert(popped_symbols@ =~= Set::empty());
    while index < count
        invariant
            index <= count,
            children_of_fields(children@, index as nat, old(incremented)@) == (
                index_symbols@,
                popped_symbols@,
            ),
            index_symbols@.len() == index,
            incremented@ == old(incremented)@.difference(popped_symbols@),
        decreases count - index,
    {
        let ghost used = popped_symbols@;
        let mut symbol: Option<Child> = None;
        let mut removed = false;
        let mut i: usize = 0;
        assert(children@.take(0) =~= Seq::<(Child, Index)>::empty());
        while i < children.len() && !removed
            invariant
                i <= children@.len(),
                child_of_field(children@.take(i as int), index as int, incremented@) == (
                    symbol,
                    removed,
                ),
                removed ==> symbol is Some,
            decreases children@.len() - i,
        {
            let (child, child_index) = children[i];
            assert(children@.take(i + 1).drop_last() =~= children@.take(i as int));
            if child_index == index as u64 {
                symbol = Some(child);
                removed = incremented.contains(&child);
            }
            i += 1;
        }
        proof {
            a_used_child_is_final(children@, i as int, index as int, incremented@);
        }
        if removed {
            if let Some(child) = symbol {
                incremented.remove(&child);
                popped_symbols.insert(child);
            }
        }
        index_symbols.push(symbol);
        index += 1;
        assert(popped_symbols@ =~= if removed {
            used.insert(symbol->0)
        } else {
            used
        });
        assert(incremented@ =~= old(incremented)@.difference(popped_symbols@));
    }
    (index_symbols, popped_symbols)
}

proof fn a_used_child_is_final(
    children: Seq<(Child, Index)>,
    count: int,
    index: int,
    available: Set<u64>,
)
    requires
        0 <= count <= children.len(),
        count == children.len() || child_of_field(children.take(count), index, available).1,
    ensures
        child_of_field(children, index, available) == child_of_field(
            children.take(count),
            index,
            available,
        ),
    decreases children.len(),
{
    if count < children.len() {
        assert(children.drop_last().take(count) =~= children.take(count));
        a_used_child_is_final(children.drop_last(), count, index, available);
    } else {
        assert(children.take(count) =~= children);
    }
}

proof fn releasing_is_defined_on_suffixes<'a>(
    interner: Seq<LayoutEntry<'a>>,
    home: ModuleId,
    structure: Symbol,
    field_layouts: &'a [InLayout],
    symbols: Seq<Option<u64>>,
    used: Set<u64>,
    from: nat,
    stmt: Stmt<'a>,
    names: Seq<Seq<char>>,
)
    requires
        fields_released(interner, home, structure, field_layouts, symbols, used, 0, stmt, names)
            is Some,
    ensures
        fields_released(interner, home, structure, field_layouts, symbols, used, from, stmt, names)
            is Some,
    decreases from,
{
    if from > 0 {
        releasing_is_defined_on_suffixes(
            interner,
            home,
            structure,
            field_layouts,
            symbols,
            used,
            (from - 1) as nat,
            stmt,
            names,
        );
    }
}

/// Releases the fields of a struct before a statement.
fn release_fields<'a>(
    arena: &'a Bump,
    layout_interner: &STLayoutInterner<'a>,
    ident_ids: &mut IdentIds,
    environment: &DropSpecializationEnvironment<'a>,
    structure: Symbol,
    field_layouts: &'a [InLayout],
    index_symbols: &Vec<Option<Child>>,
    popped_symbols: &HashSet<Child>,
    continuation: &'a Stmt<'a>,
) -> (stmt: &'a Stmt<'a>)
    requires
        index_symbols@.len() == field_layouts@.len(),
        fields_released(
            layout_interner@,
            environment@.home,
            structure,
            field_layouts,
            index_symbols@,
            popped_symbols@,
            0,
            *continuation,
            old(ident_ids)@,
        ) is Some,
    ensures
        fields_released(
            layout_interner@,
            environment@.home,
            structure,
            field_layouts,
            index_symbols@,
            popped_symbols@,
            0,
            *continuation,
            old(ident_ids)@,
        ) == Some((*stmt, final(ident_ids)@)),
{
    let mut stmt: &'a Stmt<'a> = continuation;
    let mut i: usize = field_layouts.len();
    while i > 0
        invariant
            i <= field_layouts@.len(),
            index_symbols@.len() == field_layouts@.len(),
            fields_released(
                layout_interner@,
                environment@.home,
                structure,
                field_layouts,
                index_symbols@,
                popped_symbols@,
                0,
                *continuation,
                old(ident_ids)@,
            ) is Some,
            fields_released(
                layout_interner@,
                environment@.home,
                structure,
                field_layouts,
                index_symbols@,
                popped_symbols@,
                i as nat,
                *continuation,
                old(ident_ids)@,
            ) == Some((*stmt, ident_ids@)),
        decreases i,
    {
        i -= 1;
        proof {
            releasing_is_defined_on_suffixes(
                layout_interner@,
                environment@.home,
                structure,
                field_layouts,
                index_symbols@,
                popped_symbols@,
                i as nat,
                *continuation,
                old(ident_ids)@,
            );
        }
        let field_layout = field_layouts[i];
        // Only fields that are or contain reference counted values are decremented.
        if layout_interner.contains_refcounted(field_layout) {
            match index_symbols[i] {
                // The field was indexed before.
                Some(bits) => {
                    if !popped_symbols.contains(&bits) {
                        stmt = arena.alloc(
                            Stmt::Refcounting(ModifyRc::Dec(Symbol { bits }), stmt),
                        );
                    }
                },
                // The field was not indexed before: it gets a new symbol.
                None => {
                    let name = format_field_name(i);
                    let field_symbol = environment.create_symbol(ident_ids, name.as_str());
                    let field_val_expr = Expr::StructAtIndex {
                        index: i as u64,
                        field_layouts,
                        structure,
                    };
                    let dec: &'a Stmt<'a> = arena.alloc(
                        Stmt::Refcounting(ModifyRc::Dec(field_symbol), stmt),
                    );
                    stmt = arena.alloc(Stmt::Let(field_symbol, field_val_expr, field_layout, dec));
                },
            }
        }
    }
    stmt
}

/// The first of some children that was incremented.
fn find_incremented(children: &[Child], incremented: &HashSet<Child>) -> (first: Option<Child>)
    ensures
        first == first_in(children@, incremented@),
        first is Some ==> incremented@.contains(first->0),
{
    let mut first: Option<Child> = None;
    let mut i: usize = 0;
    assert(children@.take(0) =~= Seq::<u64>::empty());
    while i < children.len()
        invariant
            i <= children@.len(),
            first == first_in(children@.take(i as int), incremented@),
            first is Some ==> incremented@.contains(first->0),
        decreases children@.len() - i,
    {
        assert(children@.take(i + 1).drop_last() =~= children@.take(i as int));
        if first.is_none() && incremented.contains(&children[i]) {
            first = Some(children[i]);
        }
        i += 1;
    }
    assert(children@.take(i as int) =~= children@);
    first
}

/// Rewrites a decrement and its continuation.
///
/// A decrement that meets an outstanding increment of the symbol goes with it. Otherwise a struct
/// with known children is taken apart, also when none of them was incremented: its fields are
/// decremented one by one, by the symbols that they have already. A box is released alone if a
/// child of it was incremented.
///
/// The children of the symbol that were incremented lose one increment, so that it is not used
/// in the continuation; it is used up here, or comes back afterwards.
fn specialize_drops_dec<'a>(
    arena: &'a Bump,
    layout_interner: &STLayoutInterner<'a>,
    ident_ids: &mut IdentIds,
    environment: &mut DropSpecializationEnvironment<'a>,
    symbol: Symbol,
    continuation: &'a Stmt<'a>,
) -> (new_stmt: &'a Stmt<'a>)
    requires
        rewritten(
            layout_interner@,
            old(environment)@,
            old(ident_ids)@,
            Stmt::Refcounting(ModifyRc::Dec(symbol), continuation),
        ) is Some,
    ensures
        rewritten(
            layout_interner@,
            old(environment)@,
            old(ident_ids)@,
            Stmt::Refcounting(ModifyRc::Dec(symbol), continuation),
        ) == Some(
            Rewritten { stmt: *new_stmt, env: final(environment)@, names: final(ident_ids)@ },
        ),
    decreases *continuation, 1nat,
{
    let ghost (_, _, restored) = dec_prepared(layout_interner@, environment@, symbol)->0;
    let children_list = environment.get_children(&symbol);
    let children = symbol_list_as_slice(&children_list);
    proof {
        popped_symbols_are_listed(environment@.incremented_symbols, children@);
    }
    let mut incremented_children = pop_children(environment, children);

    let new_dec: &'a Stmt<'a> = if environment.pop_incremented(&symbol) {
        // The symbol was incremented before: neither is needed.
        specialize_drops_stmt(arena, layout_interner, ident_ids, environment, continuation)
    } else {
        // The symbol was not incremented before, perhaps its children were.
        let in_layout = environment.get_symbol_layout(&symbol);
        match layout_interner.get(in_layout) {
            Layout::Struct { field_layouts } => {
                let found = match environment.get_struct_children(&symbol) {
                    Some(struct_children) => Some(
                        find_children_of_fields(
                            struct_children,
                            field_layouts.len(),
                            &mut incremented_children,
                        ),
                    ),
                    None => None,
                };
                let new_continuation = specialize_drops_stmt(
                    arena,
                    layout_interner,
                    ident_ids,
                    environment,
                    continuation,
                );
                match found {
                    Some((index_symbols, popped_symbols)) => release_fields(
                        arena,
                        layout_interner,
                        ident_ids,
                        environment,
                        symbol,
                        field_layouts,
                        &index_symbols,
                        &popped_symbols,
                        new_continuation,
                    ),
                    // No known children, the symbol is still decremented.
                    None => arena.alloc(
                        Stmt::Refcounting(ModifyRc::Dec(symbol), new_continuation),
                    ),
                }
            },
            Layout::Boxed(_) => {
                let removed = match find_incremented(children, &incremented_children) {
                    Some(child) => incremented_children.remove(&child),
                    None => false,
                };
                let new_continuation = specialize_drops_stmt(
                    arena,
                    layout_interner,
                    ident_ids,
                    environment,
                    continuation,
                );
                if removed {
                    // The decrement of the child was used up, only the box is left.
                    arena.alloc(Stmt::Refcounting(ModifyRc::DecRef(symbol), new_continuation))
                } else {
                    arena.alloc(Stmt::Refcounting(ModifyRc::Dec(symbol), new_continuation))
                }
            },
            _ => {
                let new_continuation = specialize_drops_stmt(
                    arena,
                    layout_interner,
                    ident_ids,
                    environment,
                    continuation,
                );
                arena.alloc(Stmt::Refcounting(ModifyRc::Dec(symbol), new_continuation))
            },
        }
    };

    assert(incremented_children@ =~= restored);
    restore_children(environment, children, incremented_children);
    new_dec
}

/// Rewrites a statement, and notes in the environment what is known after it.
pub fn specialize_drops_stmt<'a>(
    arena: &'a Bump,
    layout_interner: &STLayoutInterner<'a>,
    ident_ids: &mut IdentIds,
    environment: &mut DropSpecializationEnvironment<'a>,
    stmt: &Stmt<'a>,
) -> (new_stmt: &'a Stmt<'a>)
    requires
        rewritten(layout_interner@, old(environment)@, old(ident_ids)@, *stmt) is Some,
    ensures
        rewritten(layout_interner@, old(environment)@, old(ident_ids)@, *stmt) == Some(
            Rewritten { stmt: *new_stmt, env: final(environment)@, names: final(ident_ids)@ },
        ),
    decreases *stmt, 0nat,
{
    match stmt {
        Stmt::Let(binding, expr, layout, continuation) => {
            environment.add_symbol_layout(*binding, *layout);

            let new_continuation = match expr {
                Expr::Call(_) | Expr::Tag { .. } | Expr::Struct(_) => {
                    // Calls can change the count of a symbol. An increment of a child that moved
                    // behind a call could come too late for it, and a decrement of a parent that
                    // moved before a call too early. So all increments are forgotten.
                    let mut new_environment = environment.clone_without_incremented();
                    specialize_drops_stmt(
                        arena,
                        layout_interner,
                        ident_ids,
                        &mut new_environment,
                        continuation,
                    )
                },
                Expr::StructAtIndex { index, structure, .. } => {
                    environment.add_struct_child(*structure, *binding, *index);
                    specialize_drops_stmt(
                        arena,
                        layout_interner,
                        ident_ids,
                        environment,
                        continuation,
                    )
                },
                Expr::UnionAtIndex { structure, tag_id, index, .. } => {
                    environment.add_union_child(*structure, *binding, *tag_id, *index);
                    specialize_drops_stmt(
                        arena,
                        layout_interner,
                        ident_ids,
                        environment,
                        continuation,
                    )
                },
                Expr::ExprUnbox { symbol } => {
                    environment.add_box_child(*symbol, *binding);
                    specialize_drops_stmt(
                        arena,
                        layout_interner,
                        ident_ids,
                        environment,
                        continuation,
                    )
                },
                _ => specialize_drops_stmt(
                    arena,
                    layout_interner,
                    ident_ids,
                    environment,
                    continuation,
                ),
            };
            arena.alloc(Stmt::Let(*binding, *expr, *layout, new_continuation))
        },
        Stmt::Switch { cond_symbol, cond_layout, branches, default_branch, ret_layout } => {
            let new_branches = specialize_drops_branches(
                arena,
                layout_interner,
                ident_ids,
                environment,
                branches,
            );
            let mut branch_env = environment.clone_without_incremented();
            let new_default = specialize_drops_stmt(
                arena,
                layout_interner,
                ident_ids,
                &mut branch_env,
                default_branch.1,
            );
            arena.alloc(
                Stmt::Switch {
                    cond_symbol: *cond_symbol,
                    cond_layout: *cond_layout,
                    branches: new_branches,
                    default_branch: (default_branch.0, new_default),
                    ret_layout: *ret_layout,
                },
            )
        },
        Stmt::Ret(symbol) => arena.alloc(Stmt::Ret(*symbol)),
        Stmt::Refcounting(rc, continuation) => match rc {
            ModifyRc::Inc(symbol, count) => {
                let any = environment.any_incremented(symbol);

                environment.add_incremented(*symbol, *count);

                let new_continuation = specialize_drops_stmt(
                    arena,
                    layout_interner,
                    ident_ids,
                    environment,
                    continuation,
                );

                if any {
                    // There were increments before this one, the first one performs them all.
                    new_continuation
                } else {
                    let new_count = environment.get_incremented(symbol);
                    if new_count == 0 {
                        // All increments were used up.
                        new_continuation
                    } else {
                        arena.alloc(
                            Stmt::Refcounting(ModifyRc::Inc(*symbol, new_count), new_continuation),
                        )
                    }
                }
            },
            ModifyRc::Dec(symbol) => specialize_drops_dec(
                arena,
                layout_interner,
                ident_ids,
                environment,
                *symbol,
                continuation,
            ),
            ModifyRc::DecRef(_) => {
                // The children are not decremented, there is nothing to inline.
                let new_continuation = specialize_drops_stmt(
                    arena,
                    layout_interner,
                    ident_ids,
                    environment,
                    continuation,
                );
                arena.alloc(Stmt::Refcounting(*rc, new_continuation))
            },
        },
        Stmt::Expect { condition, region, lookups, variables, remainder } => {
            let new_remainder = specialize_drops_stmt(
                arena,
                layout_interner,
                ident_ids,
                environment,
                remainder,
            );
            arena.alloc(
                Stmt::Expect {
                    condition: *condition,
                    region: *region,
                    lookups: *lookups,
                    variables: *variables,
                    remainder: new_remainder,
                },
            )
        },
        Stmt::ExpectFx { condition, region, lookups, variables, remainder } => {
            let new_remainder = specialize_drops_stmt(
                arena,
                layout_interner,
                ident_ids,
                environment,
                remainder,
            );
            arena.alloc(
                Stmt::ExpectFx {
                    condition: *condition,
                    region: *region,
                    lookups: *lookups,
                    variables: *variables,
                    remainder: new_remainder,
                },
            )
        },
        Stmt::Dbg { symbol, variable, remainder } => {
            let new_remainder = specialize_drops_stmt(
                arena,
                layout_interner,
                ident_ids,
                environment,
                remainder,
            );
            arena.alloc(
                Stmt::Dbg { symbol: *symbol, variable: *variable, remainder: new_remainder },
            )
        },
        Stmt::Join { id, parameters, body, remainder } => {
            let mut new_environment = environment.clone_without_incremented();
            let mut i: usize = 0;
            assert(parameters@.take(0) =~= Seq::empty());
            while i < parameters.len()
                invariant
                    i <= parameters@.len(),
                    new_environment@ == env_with_parameters(
                        environment@.without_incremented(),
                        parameters@.take(i as int),
                    ),
                decreases parameters@.len() - i,
            {
                assert(parameters@.take(i + 1).drop_last() =~= parameters@.take(i as int));
                new_environment.add_symbol_layout(parameters[i].symbol, parameters[i].layout);
                i += 1;
            }
            assert(parameters@.take(i as int) =~= parameters@);

            let new_body = specialize_drops_stmt(
                arena,
                layout_interner,
                ident_ids,
                &mut new_environment,
                body,
            );
            let new_remainder = specialize_drops_stmt(
                arena,
                layout_interner,
                ident_ids,
                environment,
                remainder,
            );
            arena.alloc(
                Stmt::Join {
                    id: *id,
                    parameters: *parameters,
                    body: new_body,
                    remainder: new_remainder,
                },
            )
        },
        Stmt::Jump(joinpoint_id, arguments) => arena.alloc(Stmt::Jump(*joinpoint_id, *arguments)),
        Stmt::Crash(symbol, crash_tag) => arena.alloc(Stmt::Crash(*symbol, *crash_tag)),
    }
}

/// Rewrites the branches of a switch, each on its own.
fn specialize_drops_branches<'a>(
    arena: &'a Bump,
    layout_interner: &STLayoutInterner<'a>,
    ident_ids: &mut IdentIds,
    environment: &DropSpecializationEnvironment<'a>,
    branches: &Branches<'a>,
) -> (new_branches: &'a Branches<'a>)
    requires
        rewritten_branches(layout_interner@, environment@, old(ident_ids)@, *branches) is Some,
    ensures
        rewritten_branches(layout_interner@, environment@, old(ident_ids)@, *branches) == Some(
            (*new_branches, final(ident_ids)@),
        ),
    decreases *branches, 0nat,
{
    match branches {
        Branches::Nil => arena.alloc(Branches::Nil),
        Branches::Cons { label, info, branch, rest } => {
            let mut branch_env = environment.clone_without_incremented();
            let new_branch = specialize_drops_stmt(
                arena,
                layout_interner,
                ident_ids,
                &mut branch_env,
                branch,
            );
            let new_rest = specialize_drops_branches(
                arena,
                layout_interner,
                ident_ids,
                environment,
                rest,
            );
            arena.alloc(
                Branches::Cons { label: *label, info: *info, branch: new_branch, rest: new_rest },
            )
        },
    }
}

/// Rewrites the body of a procedure.
pub fn specialize_drops_proc<'a>(
    arena: &'a Bump,
    layout_interner: &STLayoutInterner<'a>,
    ident_ids: &mut IdentIds,
    environment: &mut DropSpecializationEnvironment<'a>,
    proc: &mut Proc<'a>,
)
    requires
        rewritten_proc(layout_interner@, old(environment)@, old(ident_ids)@, *old(proc)) is Some,
    ensures
        rewritten_proc(layout_interner@, old(environment)@, old(ident_ids)@, *old(proc)) == Some(
            (*final(proc), final(ident_ids)@),
        ),
        final(environment)@ == (rewritten(
            layout_interner@,
            env_with_arguments(old(environment)@, old(proc).args@),
            old(ident_ids)@,
            old(proc).body,
        )->0).env,
{
    let args = proc.args;
    let mut i: usize = 0;
    assert(args@.take(0) =~= Seq::empty());
    while i < args.len()
        invariant
            i <= args@.len(),
            environment@ == env_with_arguments(old(environment)@, args@.take(i as int)),
        decreases args@.len() - i,
    {
        assert(args@.take(i + 1).drop_last() =~= args@.take(i as int));
        let (layout, symbol) = args[i];
        environment.add_symbol_layout(symbol, layout);
        i += 1;
    }
    assert(args@.take(i as int) =~= args@);

    let new_body = specialize_drops_stmt(
        arena,
        layout_interner,
        ident_ids,
        environment,
        &proc.body,
    );
    proc.body = *new_body;
}

/// Tries to find increments of symbols followed by decrements of the symbol that they were
/// indexed out of, their parent. Then the decrement of the parent is inlined and matching pairs
/// of increments and decrements are removed.
///
/// The procedures are taken in order, and new names are added to `ident_ids` as they come up.
/// Each keeps its place and its key, so that no key occurs twice if none did before. No new update
/// mode is needed.
pub fn specialize_drops<'a, 'i>(
    arena: &'a Bump,
    layout_interner: &'i STLayoutInterner<'a>,
    home: ModuleId,
    ident_ids: &'i mut IdentIds,
    update_mode_ids: &'i mut UpdateModeIds,
    procs: &mut Vec<((Symbol, ProcLayout<'a>), Proc<'a>)>,
)
    requires
        rewritten_procs(layout_interner@, home, old(ident_ids)@, old(procs)@) is Some,
    ensures
        rewritten_procs(layout_interner@, home, old(ident_ids)@, old(procs)@) == Some(
            (final(procs)@, final(ident_ids)@),
        ),
        keys_are_distinct(old(procs)@) ==> keys_are_distinct(final(procs)@),
        *final(update_mode_ids) == *old(update_mode_ids),
{
    let environment = DropSpecializationEnvironment::new(arena, home);
    let ghost all = procs@;
    let mut i: usize = 0;
    assert(all.take(0) =~= Seq::empty());
    assert(procs@ =~= all.take(0) + all.skip(0));
    while i < procs.len()
        invariant
            i <= procs@.len(),
            procs@.len() == all.len(),
            environment@ == EnvironmentView::empty(home),
            rewritten_procs(layout_interner@, home, old(ident_ids)@, all) is Some,
            rewritten_procs(layout_interner@, home, old(ident_ids)@, all.take(i as int)) == Some(
                (procs@.take(i as int), ident_ids@),
            ),
            procs@.skip(i as int) =~= all.skip(i as int),
        decreases procs@.len() - i,
    {
        proof {
            rewriting_is_defined_on_prefixes(
                layout_interner@,
                home,
                old(ident_ids)@,
                all,
                i + 1,
            );
            assert(all.take(i + 1).drop_last() =~= all.take(i as int));
            assert(procs@.skip(i as int)[0] == all.skip(i as int)[0]);
        }
        let (key, mut proc) = procs[i];
        let mut proc_environment = environment.clone();
        specialize_drops_proc(arena, layout_interner, ident_ids, &mut proc_environment, &mut proc);
        let ghost before = procs@;
        procs.set(i, (key, proc));
        i += 1;
        assert(procs@.take(i as int) =~= before.take(i - 1).push((key, proc)));
        assert(procs@.skip(i as int) =~= before.skip(i - 1).skip(1));
        assert(all.skip(i as int) =~= all.skip(i - 1).skip(1));
    }
    assert(all.take(i as int) =~= all);
    assert(procs@.take(i as int) =~= procs@);
    proof {
        procedures_keep_all_but_their_bodies(layout_interner@, home, old(ident_ids)@, all);
    }
}

proof fn rewriting_is_defined_on_prefixes<'a>(
    interner: Seq<LayoutEntry<'a>>,
    home: ModuleId,
    names: Seq<Seq<char>>,
    procs: Seq<((Symbol, ProcLayout<'a>), Proc<'a>)>,
    count: int,
)
    requires
        0 <= count <= procs.len(),
        rewritten_procs(interner, home, names, procs) is Some,
    ensures
        rewritten_procs(interner, home, names, procs.take(count)) is Some,
    decreases procs.len() - count,
{
    if count < procs.len() {
        rewriting_is_defined_on_prefixes(interner, home, names, procs, count + 1);
        assert(procs.take(count + 1).drop_last() =~= procs.take(count));
    } else {
        assert(procs.take(count) =~= procs);
    }
}

/// Frees the memory of a symbol before a statement.
///
/// For now this is a `DecRef`, which checks whether the symbol is unique. It is meant for symbols
/// that are known to be, for which the check is not needed.
pub fn free<'a>(arena: &'a Bump, symbol: Symbol, continuation: &'a Stmt<'a>) -> (stmt: &'a Stmt<
    'a,
>)
    ensures
        *stmt == Stmt::Refcounting(ModifyRc::DecRef(symbol), continuation),
{
    arena.alloc(Stmt::Refcounting(ModifyRc::DecRef(symbol), continuation))
}

} // verus!
