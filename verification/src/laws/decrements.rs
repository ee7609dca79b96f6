//! What becomes of a decrement, by what was taken out of the symbol and what of it is outstanding.
use crate::environment::{Child, EnvironmentView, Index};
use crate::ir::{Expr, ModifyRc, Stmt};
use crate::laws::increments::increments_are_performed;
use crate::laws::steps::the_first_increment_performs_all;
use crate::layout::{InLayout, Layout, LayoutEntry};
use crate::rewriting::{
    child_of_field, children_of_fields, dec_finished, dec_plan, dec_prepared, fields_released,
    first_in, increments_popped, increments_restored, rewritten, DecPlan, Rewritten,
};
use crate::symbol::{ModuleId, Symbol};
use vstd::prelude::*;

verus! {

/// All that was taken out of a symbol: out of a struct, out of a union, out of a box.
pub open spec fn taken_out_of(env: EnvironmentView, parent: Symbol) -> Seq<u64> {
    (if env.struct_children.contains_key(parent.bits) {
        env.struct_children[parent.bits].map_values(|child: (u64, u64)| child.0)
    } else {
        Seq::empty()
    }) + (if env.union_children.contains_key(parent.bits) {
        env.union_children[parent.bits].map_values(|child: (u64, u16, u64)| child.0)
    } else {
        Seq::empty()
    }) + (if env.box_children.contains_key(parent.bits) {
        env.box_children[parent.bits]
    } else {
        Seq::empty()
    })
}

/// What was taken out of a symbol and has increments outstanding.
pub open spec fn incremented_children(env: EnvironmentView, parent: Symbol) -> Set<u64> {
    Set::new(
        |child: u64|
            taken_out_of(env, parent).contains(child) && env.incremented_symbols.contains_key(
                child,
            ),
    )
}

/// Increments with one less of each of some symbols. The last one of a symbol leaves nothing.
pub open spec fn with_one_less(increments: Map<u64, u64>, symbols: Set<u64>) -> Map<u64, u64> {
    Map::new(
        |symbol: u64|
            increments.contains_key(symbol) && !(symbols.contains(symbol) && increments[symbol]
                == 1),
        |symbol: u64|
            if symbols.contains(symbol) {
                (increments[symbol] - 1) as u64
            } else {
                increments[symbol]
            },
    )
}

/// Increments with one more of each of some symbols.
pub open spec fn with_one_more(increments: Map<u64, u64>, symbols: Set<u64>) -> Map<u64, u64> {
    Map::new(
        |symbol: u64| increments.contains_key(symbol) || symbols.contains(symbol),
        |symbol: u64|
            if !symbols.contains(symbol) {
                increments[symbol]
            } else if increments.contains_key(symbol) {
                (increments[symbol] + 1) as u64
            } else {
                1
            },
    )
}

/// Whether the program took each symbol out of the parent at most once, and not the parent itself.
pub open spec fn has_proper_children(env: EnvironmentView, parent: Symbol) -> bool {
    taken_out_of(env, parent).no_duplicates() && !taken_out_of(env, parent).contains(parent.bits)
}

/// Whether something was taken out of a field.
pub open spec fn has_child(children: Seq<(Child, Index)>, index: int) -> bool {
    exists|at: int| 0 <= at < children.len() && (#[trigger] children[at]).1 == index
}

/// Whether something of a set was taken out of a field.
pub open spec fn has_child_in(
    children: Seq<(Child, Index)>,
    index: int,
    symbols: Set<u64>,
) -> bool {
    exists|at: int|
        0 <= at < children.len() && (#[trigger] children[at]).1 == index && symbols.contains(
            children[at].0,
        )
}

/// Whether a child is the first one of a set that was taken out of its field.
pub open spec fn is_first_in(
    children: Seq<(Child, Index)>,
    at: int,
    index: int,
    symbols: Set<u64>,
) -> bool {
    &&& 0 <= at < children.len()
    &&& children[at].1 == index
    &&& symbols.contains(children[at].0)
    &&& forall|other: int|
        0 <= other < at && (#[trigger] children[other]).1 == index ==> !symbols.contains(
            children[other].0,
        )
}

/// Whether a child is the last one that was taken out of its field.
pub open spec fn is_last(children: Seq<(Child, Index)>, at: int, index: int) -> bool {
    &&& 0 <= at < children.len()
    &&& children[at].1 == index
    &&& forall|other: int|
        at < other < children.len() ==> (#[trigger] children[other]).1 != index
}

/// The children that are paired with the decrement of a struct: of each field the first one that
/// was incremented.
pub open spec fn paired_children(
    children: Seq<(Child, Index)>,
    count: nat,
    incremented: Set<u64>,
) -> Set<u64> {
    Set::new(|child: u64| is_paired(children, count, incremented, child))
}

pub open spec fn is_paired(
    children: Seq<(Child, Index)>,
    count: nat,
    incremented: Set<u64>,
    child: u64,
) -> bool {
    exists|at: int|
        0 <= at < children.len() && (#[trigger] children[at]).0 == child && children[at].1 < count
            && is_first_in(children, at, children[at].1 as int, incremented)
}

/// Whether a statement decrements the fields of a struct from a given one on, in order, before
/// another statement.
/// - A field without reference counted values is not decremented, whether it has a symbol or not.
/// - A field of which a child was incremented is not decremented.
/// - Any other field is decremented by the last symbol that it was bound to, if it has one.
/// - Otherwise it is bound to a symbol, with the layout of the field, which is decremented.
pub open spec fn decrements_fields<'a>(
    interner: Seq<LayoutEntry<'a>>,
    structure: Symbol,
    field_layouts: &'a [InLayout],
    children: Seq<(Child, Index)>,
    incremented: Set<u64>,
    from: nat,
    stmt: Stmt<'a>,
    rest: Stmt<'a>,
) -> bool
    decreases field_layouts@.len() - from,
{
    if from >= field_layouts@.len() {
        stmt == rest
    } else {
        let layout = field_layouts@[from as int];
        if !interner[layout.0 as int].contains_refcounted || has_child_in(
            children,
            from as int,
            incremented,
        ) {
            decrements_fields(
                interner,
                structure,
                field_layouts,
                children,
                incremented,
                from + 1,
                stmt,
                rest,
            )
        } else if has_child(children, from as int) {
            &&& stmt matches Stmt::Refcounting(rc, behind)
            &&& exists|at: int| #[trigger]
                is_last(children, at, from as int) && rc == ModifyRc::Dec(
                    Symbol { bits: children[at].0 },
                )
            &&& decrements_fields(
                interner,
                structure,
                field_layouts,
                children,
                incremented,
                from + 1,
                *behind,
                rest,
            )
        } else {
            &&& stmt matches Stmt::Let(symbol, expr, bound_layout, release)
            &&& expr == (Expr::StructAtIndex { index: from as u64, field_layouts, structure })
            &&& bound_layout == layout
            &&& *release matches Stmt::Refcounting(rc, behind)
            &&& rc == ModifyRc::Dec(symbol)
            &&& decrements_fields(
                interner,
                structure,
                field_layouts,
                children,
                incremented,
                from + 1,
                *behind,
                rest,
            )
        }
    }
}

proof fn popping_takes_one_each(increments: Map<u64, u64>, symbols: Seq<u64>)
    requires
        symbols.no_duplicates(),
        increments_popped(increments, symbols) is Some,
    ensures
        ({
            let (left, popped) = increments_popped(increments, symbols)->0;
            &&& forall|symbol: u64| #[trigger]
                popped.contains(symbol) <==> symbols.contains(symbol) && increments.contains_key(
                    symbol,
                )
            &&& left == with_one_less(increments, popped)
        }),
    decreases symbols.len(),
{
    let (left, popped) = increments_popped(increments, symbols)->0;
    if symbols.len() > 0 {
        let others = symbols.drop_last();
        let last = symbols.last();
        assert(others.no_duplicates());
        popping_takes_one_each(increments, others);
        let (before, popped_before) = increments_popped(increments, others)->0;
        assert(!others.contains(last)) by {
            if others.contains(last) {
                let at = others.index_of(last);
                assert(symbols[at] == symbols[symbols.len() - 1]);
            }
        }
        assert forall|symbol: u64| symbols.contains(symbol) <==> #[trigger] others.contains(symbol)
            || symbol == last by {
            if symbols.contains(symbol) {
                let at = symbols.index_of(symbol);
                if at < others.len() {
                    assert(others[at] == symbol);
                }
            }
            if others.contains(symbol) {
                let at = others.index_of(symbol);
                assert(symbols[at] == symbol);
            }
            assert(symbols[symbols.len() - 1] == last);
        }
        assert forall|symbol: u64| #[trigger]
            popped.contains(symbol) <==> symbols.contains(symbol) && increments.contains_key(
            symbol,
        ) by {
            assert(popped_before.contains(symbol) <==> others.contains(symbol)
                && increments.contains_key(symbol));
        }
        assert(!popped_before.contains(last));
        assert(left =~= with_one_less(increments, popped));
    } else {
        assert(left =~= with_one_less(increments, popped));
    }
}

proof fn the_child_of_a_field(children: Seq<(Child, Index)>, index: int, available: Set<u64>)
    ensures
        ({
            let (symbol, uses) = child_of_field(children, index, available);
            &&& uses <==> has_child_in(children, index, available)
            &&& symbol is Some <==> has_child(children, index)
            &&& uses ==> exists|at: int| #[trigger]
                is_first_in(children, at, index, available) && symbol == Some(children[at].0)
            &&& !uses && symbol is Some ==> exists|at: int| #[trigger]
                is_last(children, at, index) && symbol == Some(children[at].0)
        }),
    decreases children.len(),
{
    if children.len() > 0 {
        let others = children.drop_last();
        let last = children.len() - 1;
        the_child_of_a_field(others, index, available);
        let (before, used) = child_of_field(others, index, available);
        let (symbol, uses) = child_of_field(children, index, available);
        assert forall|at: int| 0 <= at < others.len() implies #[trigger] others[at]
            == children[at] by {}
        if has_child_in(others, index, available) {
            let at = choose|at: int|
                0 <= at < others.len() && (#[trigger] others[at]).1 == index && available.contains(
                    others[at].0,
                );
            assert(children[at].1 == index && available.contains(children[at].0));
        }
        if has_child_in(children, index, available) {
            let at = choose|at: int|
                0 <= at < children.len() && (#[trigger] children[at]).1 == index
                    && available.contains(children[at].0);
            if at < last {
                assert(others[at].1 == index && available.contains(others[at].0));
            }
        }
        if has_child(others, index) {
            let at = choose|at: int| 0 <= at < others.len() && (#[trigger] others[at]).1 == index;
            assert(children[at].1 == index);
        }
        if has_child(children, index) {
            let at = choose|at: int|
                0 <= at < children.len() && (#[trigger] children[at]).1 == index;
            if at < last {
                assert(others[at].1 == index);
            }
        }
        if used {
            let at = choose|at: int| #[trigger]
                is_first_in(others, at, index, available) && before == Some(others[at].0);
            assert forall|other: int|
                0 <= other < at && (
                #[trigger] children[other]).1 == index implies !available.contains(
                children[other].0,
            ) by {
                assert(others[other] == children[other]);
            }
            assert(is_first_in(children, at, index, available));
        } else if children[last].1 == index {
            assert(is_last(children, last, index));
            if uses {
                assert forall|other: int|
                    0 <= other < last && (
                    #[trigger] children[other]).1 == index implies !available.contains(
                    children[other].0,
                ) by {
                    assert(others[other] == children[other]);
                    assert(!has_child_in(others, index, available));
                }
                assert(is_first_in(children, last, index, available));
            }
        } else if before is Some {
            let at = choose|at: int| #[trigger]
                is_last(others, at, index) && before == Some(others[at].0);
            assert forall|other: int| at < other < children.len() implies (
            #[trigger] children[other]).1 != index by {
                if other < last {
                    assert(others[other].1 != index);
                }
            }
            assert(is_last(children, at, index));
        }
    }
}

/// What the symbols of the fields of a struct are.
proof fn the_children_of_fields(
    children: Seq<(Child, Index)>,
    count: nat,
    incremented: Set<u64>,
)
    requires
        forall|i: int, j: int|
            0 <= i < j < children.len() ==> (#[trigger] children[i]).0 != (
            #[trigger] children[j]).0,
    ensures
        ({
            let (symbols, used) = children_of_fields(children, count, incremented);
            &&& symbols.len() == count
            &&& used == paired_children(children, count, incremented)
            &&& forall|i: int| 0 <= i < count ==> is_symbol_of(
                children,
                i,
                incremented,
                #[trigger] symbols[i],
            )
        }),
    decreases count,
{
    let (symbols, used) = children_of_fields(children, count, incremented);
    if count > 0 {
        let last = (count - 1) as nat;
        the_children_of_fields(children, last, incremented);
        let (before, used_before) = children_of_fields(children, last, incremented);
        let available = incremented.difference(used_before);
        let (symbol, uses) = child_of_field(children, last as int, available);
        the_child_of_a_field(children, last as int, available);
        assert forall|at: int|
            0 <= at < children.len() && (
            #[trigger] children[at]).1 == last implies available.contains(children[at].0)
            == incremented.contains(children[at].0) by {
            if used_before.contains(children[at].0) {
                let other = choose|other: int|
                    0 <= other < children.len() && (#[trigger] children[other]).0 == children[at].0
                        && children[other].1 < last && is_first_in(
                        children,
                        other,
                        children[other].1 as int,
                        incremented,
                    );
                assert(other == at);
            }
        }
        if has_child_in(children, last as int, incremented) {
            let at = choose|at: int|
                0 <= at < children.len() && (#[trigger] children[at]).1 == last
                    && incremented.contains(children[at].0);
            assert(available.contains(children[at].0));
        }
        if has_child_in(children, last as int, available) {
            let at = choose|at: int|
                0 <= at < children.len() && (#[trigger] children[at]).1 == last
                    && available.contains(children[at].0);
            assert(incremented.contains(children[at].0));
        }
        assert forall|at: int|
            is_first_in(children, at, last as int, available) == #[trigger] is_first_in(
                children,
                at,
                last as int,
                incremented,
            ) by {}
        if uses {
            let first = choose|first: int| #[trigger]
                is_first_in(children, first, last as int, available) && symbol == Some(
                    children[first].0,
                );
            assert(is_first_in(children, first, last as int, incremented));
        }
        assert(is_symbol_of(children, last as int, incremented, symbol));
        assert forall|i: int| 0 <= i < count implies is_symbol_of(
            children,
            i,
            incremented,
            #[trigger] symbols[i],
        ) by {
            if i < last {
                assert(symbols[i] == before[i]);
            }
        }
        assert forall|child: u64| used.contains(child) == is_paired(
            children,
            count,
            incremented,
            child,
        ) by {
            if is_paired(children, last, incremented, child) {
                let at = choose|at: int|
                    0 <= at < children.len() && (#[trigger] children[at]).0 == child
                        && children[at].1 < last && is_first_in(
                        children,
                        at,
                        children[at].1 as int,
                        incremented,
                    );
                assert(children[at].1 < count);
            }
            if is_paired(children, count, incremented, child) {
                let at = choose|at: int|
                    0 <= at < children.len() && (#[trigger] children[at]).0 == child
                        && children[at].1 < count && is_first_in(
                        children,
                        at,
                        children[at].1 as int,
                        incremented,
                    );
                if children[at].1 < last {
                    assert(is_paired(children, last, incremented, child));
                } else {
                    assert(is_first_in(children, at, last as int, incremented));
                    assert(is_first_in(children, at, last as int, available));
                    let first = choose|first: int| #[trigger]
                        is_first_in(children, first, last as int, available) && symbol == Some(
                            children[first].0,
                        );
                    assert(first == at);
                }
            }
            if uses && symbol == Some(child) {
                let first = choose|first: int| #[trigger]
                    is_first_in(children, first, last as int, available) && symbol == Some(
                        children[first].0,
                    );
                assert(is_first_in(children, first, last as int, incremented));
                assert(children[first].0 == child);
                assert(is_paired(children, count, incremented, child));
            }
        }
        assert(used =~= paired_children(children, count, incremented));
    } else {
        assert(used =~= paired_children(children, count, incremented));
    }
}

/// Whether a symbol is the one that stands for a field.
spec fn is_symbol_of(
    children: Seq<(Child, Index)>,
    index: int,
    incremented: Set<u64>,
    symbol: Option<u64>,
) -> bool {
    if has_child_in(children, index, incremented) {
        exists|at: int| #[trigger]
            is_first_in(children, at, index, incremented) && symbol == Some(children[at].0)
    } else if has_child(children, index) {
        exists|at: int| #[trigger] is_last(children, at, index) && symbol == Some(children[at].0)
    } else {
        symbol is None
    }
}

proof fn released_fields_are_decremented<'a>(
    interner: Seq<LayoutEntry<'a>>,
    home: ModuleId,
    structure: Symbol,
    field_layouts: &'a [InLayout],
    children: Seq<(Child, Index)>,
    incremented: Set<u64>,
    symbols: Seq<Option<u64>>,
    used: Set<u64>,
    from: nat,
    stmt: Stmt<'a>,
    names: Seq<Seq<char>>,
)
    requires
        fields_released(interner, home, structure, field_layouts, symbols, used, from, stmt, names)
            is Some,
        forall|i: int, j: int|
            0 <= i < j < children.len() ==> (#[trigger] children[i]).0 != (
            #[trigger] children[j]).0,
        used == paired_children(children, field_layouts@.len(), incremented),
        forall|i: int| 0 <= i < field_layouts@.len() ==> is_symbol_of(
            children,
            i,
            incremented,
            #[trigger] symbols[i],
        ),
    ensures
        decrements_fields(
            interner,
            structure,
            field_layouts,
            children,
            incremented,
            from,
            (fields_released(
                interner,
                home,
                structure,
                field_layouts,
                symbols,
                used,
                from,
                stmt,
                names,
            )->0).0,
            stmt,
        ),
    decreases field_layouts@.len() - from,
{
    if from < field_layouts@.len() {
        released_fields_are_decremented(
            interner,
            home,
            structure,
            field_layouts,
            children,
            incremented,
            symbols,
            used,
            from + 1,
            stmt,
            names,
        );
        assert(field_layouts@.len() == field_layouts.len());
        let symbol = symbols[from as int];
        assert(is_symbol_of(children, from as int, incremented, symbol));
        if has_child_in(children, from as int, incremented) {
            let at = choose|at: int| #[trigger]
                is_first_in(children, at, from as int, incremented) && symbol == Some(
                    children[at].0,
                );
            assert(is_paired(children, field_layouts@.len(), incremented, children[at].0));
        } else if has_child(children, from as int) {
            let at = choose|at: int| #[trigger]
                is_last(children, at, from as int) && symbol == Some(children[at].0);
            if is_paired(children, field_layouts@.len(), incremented, children[at].0) {
                let other = choose|other: int|
                    0 <= other < children.len() && (#[trigger] children[other]).0 == children[at].0
                        && children[other].1 < field_layouts@.len() && is_first_in(
                        children,
                        other,
                        children[other].1 as int,
                        incremented,
                    );
                assert(other == at);
                assert(children[at].1 == from && incremented.contains(children[at].0));
            }
        }
    }
}

proof fn a_decrement_is_prepared<'a>(
    interner: Seq<LayoutEntry<'a>>,
    env: EnvironmentView,
    names: Seq<Seq<char>>,
    symbol: Symbol,
    continuation: &'a Stmt<'a>,
)
    requires
        rewritten(
            interner,
            env,
            names,
            Stmt::Refcounting(ModifyRc::Dec(symbol), continuation),
        ) is Some,
        has_proper_children(env, symbol),
    ensures
        ({
            let held = incremented_children(env, symbol);
            &&& env.children_of(symbol) == taken_out_of(env, symbol)
            &&& increments_popped(env.incremented_symbols, env.children_of(symbol)) == Some(
                (with_one_less(env.incremented_symbols, held), held),
            )
        }),
        forall|increments: Map<u64, u64>, symbols: Set<u64>| #[trigger]
            increments_restored(increments, symbols) == with_one_more(increments, symbols),
{
    let children = taken_out_of(env, symbol);
    assert(env.children_of(symbol) =~= children);
    popping_takes_one_each(env.incremented_symbols, children);
    let (_, popped) = increments_popped(env.incremented_symbols, children)->0;
    assert(popped =~= incremented_children(env, symbol));
    assert forall|increments: Map<u64, u64>, symbols: Set<u64>| #[trigger]
        increments_restored(increments, symbols) == with_one_more(increments, symbols) by {
        assert(increments_restored(increments, symbols) =~= with_one_more(increments, symbols));
    }
}

/// A decrement of a symbol of which increments are outstanding goes, with one of them. While its
/// continuation is rewritten, one increment of each incremented child is not available, and it is
/// outstanding again afterwards.
pub proof fn a_decrement_meets_an_increment<'a>(
    interner: Seq<LayoutEntry<'a>>,
    env: EnvironmentView,
    names: Seq<Seq<char>>,
    symbol: Symbol,
    continuation: &'a Stmt<'a>,
)
    requires
        rewritten(
            interner,
            env,
            names,
            Stmt::Refcounting(ModifyRc::Dec(symbol), continuation),
        ) is Some,
        has_proper_children(env, symbol),
        env.incremented_symbols.contains_key(symbol.bits),
    ensures
        ({
            let stmt = Stmt::Refcounting(ModifyRc::Dec(symbol), continuation);
            let held = incremented_children(env, symbol);
            let inside = EnvironmentView {
                incremented_symbols: with_one_less(
                    env.incremented_symbols,
                    held.insert(symbol.bits),
                ),
                ..env
            };
            let after = rewritten(interner, env, names, stmt)->0;
            &&& rewritten(interner, inside, names, *continuation) matches Some(between)
            &&& after.stmt == between.stmt
            &&& after.names == between.names
            &&& after.env == (EnvironmentView {
                incremented_symbols: with_one_more(between.env.incremented_symbols, held),
                ..between.env
            })
        }),
{
    let stmt = Stmt::Refcounting(ModifyRc::Dec(symbol), continuation);
    let held = incremented_children(env, symbol);
    a_decrement_is_prepared(interner, env, names, symbol, continuation);
    let (inner, plan, restored) = dec_prepared(interner, env, symbol)->0;
    assert(!held.contains(symbol.bits));
    assert(inner.incremented_symbols =~= with_one_less(
        env.incremented_symbols,
        held.insert(symbol.bits),
    ));
    let between = rewritten(interner, inner, names, *continuation)->0;
    assert(rewritten(interner, env, names, stmt) == dec_finished(
        interner,
        symbol,
        plan,
        restored,
        between,
    ));
}

/// The parts of a decrement of a symbol of which no increment is outstanding.
proof fn a_decrement_is_carried_out<'a>(
    interner: Seq<LayoutEntry<'a>>,
    env: EnvironmentView,
    names: Seq<Seq<char>>,
    symbol: Symbol,
    continuation: &'a Stmt<'a>,
) -> (parts: (DecPlan<'a>, Rewritten<'a>))
    requires
        rewritten(
            interner,
            env,
            names,
            Stmt::Refcounting(ModifyRc::Dec(symbol), continuation),
        ) is Some,
        has_proper_children(env, symbol),
        !env.incremented_symbols.contains_key(symbol.bits),
    ensures
        ({
            let stmt = Stmt::Refcounting(ModifyRc::Dec(symbol), continuation);
            let held = incremented_children(env, symbol);
            let inside = EnvironmentView {
                incremented_symbols: with_one_less(env.incremented_symbols, held),
                ..env
            };
            let after = rewritten(interner, env, names, stmt)->0;
            let (plan, between) = parts;
            &&& dec_plan(interner, env, symbol, held) == Some(plan)
            &&& rewritten(interner, inside, names, *continuation) == Some(between)
            &&& dec_finished(interner, symbol, plan, held.difference(plan.used()), between)
                == Some(after)
            &&& after.env == (EnvironmentView {
                incremented_symbols: with_one_more(
                    between.env.incremented_symbols,
                    held.difference(plan.used()),
                ),
                ..between.env
            })
        }),
{
    let stmt = Stmt::Refcounting(ModifyRc::Dec(symbol), continuation);
    let held = incremented_children(env, symbol);
    a_decrement_is_prepared(interner, env, names, symbol, continuation);
    let (inner, plan, restored) = dec_prepared(interner, env, symbol)->0;
    let inside = EnvironmentView {
        incremented_symbols: with_one_less(env.incremented_symbols, held),
        ..env
    };
    assert(inner =~= inside);
    let between = rewritten(interner, inner, names, *continuation)->0;
    assert(rewritten(interner, env, names, stmt) == dec_finished(
        interner,
        symbol,
        plan,
        restored,
        between,
    ));
    (plan, between)
}

/// A struct of which something was taken out is taken apart where it is decremented and no
/// increment of it is outstanding. While the continuation is rewritten, one increment of each
/// incremented child is not available. Of every field with an incremented child, exactly one
/// increment is used up and nothing is decremented; every other field with reference counted values
/// is decremented. The increments that were not used up are outstanding again afterwards.
pub proof fn a_struct_is_taken_apart<'a>(
    interner: Seq<LayoutEntry<'a>>,
    env: EnvironmentView,
    names: Seq<Seq<char>>,
    symbol: Symbol,
    field_layouts: &'a [InLayout],
    continuation: &'a Stmt<'a>,
)
    requires
        rewritten(
            interner,
            env,
            names,
            Stmt::Refcounting(ModifyRc::Dec(symbol), continuation),
        ) is Some,
        has_proper_children(env, symbol),
        !env.incremented_symbols.contains_key(symbol.bits),
        env.symbol_layouts.contains_key(symbol.bits),
        env.symbol_layouts[symbol.bits].0 < interner.len(),
        interner[env.symbol_layouts[symbol.bits].0 as int].layout == (Layout::Struct {
            field_layouts,
        }),
        env.struct_children.contains_key(symbol.bits),
    ensures
        ({
            let stmt = Stmt::Refcounting(ModifyRc::Dec(symbol), continuation);
            let held = incremented_children(env, symbol);
            let children = env.struct_children[symbol.bits];
            let paired = paired_children(children, field_layouts@.len(), held);
            let inside = EnvironmentView {
                incremented_symbols: with_one_less(env.incremented_symbols, held),
                ..env
            };
            let after = rewritten(interner, env, names, stmt)->0;
            &&& rewritten(interner, inside, names, *continuation) matches Some(between)
            &&& decrements_fields(
                interner,
                symbol,
                field_layouts,
                children,
                held,
                0,
                after.stmt,
                between.stmt,
            )
            &&& after.env == (EnvironmentView {
                incremented_symbols: with_one_more(
                    between.env.incremented_symbols,
                    held.difference(paired),
                ),
                ..between.env
            })
            &&& forall|child: u64| #[trigger] paired.contains(child) ==> held.contains(child)
            &&& forall|index: int|
                0 <= index < field_layouts@.len() && #[trigger] has_child_in(children, index, held)
                    ==> exists|at: int|
                    0 <= at < children.len() && (#[trigger] children[at]).1 == index
                        && paired.contains(children[at].0) && forall|other: int|
                        0 <= other < children.len() && other != at && (
                        #[trigger] children[other]).1 == index ==> !paired.contains(
                            children[other].0,
                        )
        }),
{
    let stmt = Stmt::Refcounting(ModifyRc::Dec(symbol), continuation);
    let held = incremented_children(env, symbol);
    let children = env.struct_children[symbol.bits];
    let paired = paired_children(children, field_layouts@.len(), held);
    let all = taken_out_of(env, symbol);
    assert forall|i: int| 0 <= i < children.len() implies all[i] == (#[trigger] children[i]).0 by {
        assert(all[i] == children.map_values(|child: (u64, u64)| child.0)[i]);
    }
    assert forall|i: int, j: int| 0 <= i < j < children.len() implies (
    #[trigger] children[i]).0 != (#[trigger] children[j]).0 by {
        assert(all[i] != all[j]);
    }
    the_children_of_fields(children, field_layouts@.len(), held);
    let (plan, between) = a_decrement_is_carried_out(interner, env, names, symbol, continuation);
    if let DecPlan::Fields { field_layouts: _, symbols, used } = plan {
        released_fields_are_decremented(
            interner,
            between.env.home,
            symbol,
            field_layouts,
            children,
            held,
            symbols,
            used,
            0,
            between.stmt,
            between.names,
        );
    }
    assert forall|child: u64| #[trigger] paired.contains(child) implies held.contains(child) by {
        assert(is_paired(children, field_layouts@.len(), held, child));
    }
    assert forall|index: int|
        0 <= index < field_layouts@.len() && #[trigger] has_child_in(
            children,
            index,
            held,
        ) implies exists|at: int|
        0 <= at < children.len() && (#[trigger] children[at]).1 == index && paired.contains(
            children[at].0,
        ) && forall|other: int|
            0 <= other < children.len() && other != at && (#[trigger] children[other]).1 == index
                ==> !paired.contains(children[other].0) by {
        the_child_of_a_field(children, index, held);
        let at = choose|at: int| #[trigger] is_first_in(children, at, index, held);
        assert(is_paired(children, field_layouts@.len(), held, children[at].0));
        assert forall|other: int|
            0 <= other < children.len() && other != at && (
            #[trigger] children[other]).1 == index implies !paired.contains(children[other].0) by {
            if paired.contains(children[other].0) {
                let first = choose|first: int|
                    0 <= first < children.len() && (#[trigger] children[first]).0
                        == children[other].0 && children[first].1 < field_layouts@.len()
                        && is_first_in(children, first, children[first].1 as int, held);
                assert(first == other);
                assert(held.contains(children[other].0) && held.contains(children[at].0));
            }
        }
    }
}

/// The decrement of a box of which no increment is outstanding becomes a release of the box alone
/// if what was taken out of it was incremented, and exactly one increment is used up: that of the
/// first incremented child. Otherwise it stays. While the continuation is rewritten, one increment
/// of each incremented child is not available, and those that were not used up are outstanding
/// again afterwards.
pub proof fn a_box_is_released<'a>(
    interner: Seq<LayoutEntry<'a>>,
    env: EnvironmentView,
    names: Seq<Seq<char>>,
    symbol: Symbol,
    content: InLayout,
    continuation: &'a Stmt<'a>,
)
    requires
        rewritten(
            interner,
            env,
            names,
            Stmt::Refcounting(ModifyRc::Dec(symbol), continuation),
        ) is Some,
        has_proper_children(env, symbol),
        !env.incremented_symbols.contains_key(symbol.bits),
        env.symbol_layouts.contains_key(symbol.bits),
        env.symbol_layouts[symbol.bits].0 < interner.len(),
        interner[env.symbol_layouts[symbol.bits].0 as int].layout == Layout::Boxed(content),
    ensures
        ({
            let stmt = Stmt::Refcounting(ModifyRc::Dec(symbol), continuation);
            let held = incremented_children(env, symbol);
            let children = taken_out_of(env, symbol);
            let inside = EnvironmentView {
                incremented_symbols: with_one_less(env.incremented_symbols, held),
                ..env
            };
            let after = rewritten(interner, env, names, stmt)->0;
            &&& rewritten(interner, inside, names, *continuation) matches Some(between)
            &&& after.names == between.names
            &&& if exists|child: u64| held.contains(child) {
                &&& after.stmt == Stmt::Refcounting(ModifyRc::DecRef(symbol), &between.stmt)
                &&& exists|at: int|
                    {
                        &&& 0 <= at < children.len()
                        &&& held.contains(#[trigger] children[at])
                        &&& forall|other: int|
                            0 <= other < at ==> !held.contains(#[trigger] children[other])
                        &&& after.env == (EnvironmentView {
                            incremented_symbols: with_one_more(
                                between.env.incremented_symbols,
                                held.remove(children[at]),
                            ),
                            ..between.env
                        })
                    }
            } else {
                &&& after.stmt == Stmt::Refcounting(ModifyRc::Dec(symbol), &between.stmt)
                &&& after.env == between.env
            }
        }),
{
    let held = incremented_children(env, symbol);
    let children = taken_out_of(env, symbol);
    let (plan, between) = a_decrement_is_carried_out(interner, env, names, symbol, continuation);
    a_decrement_is_prepared(interner, env, names, symbol, continuation);
    let stmt = Stmt::Refcounting(ModifyRc::Dec(symbol), continuation);
    let after = rewritten(interner, env, names, stmt)->0;
    the_first_of_a_set(children, held);
    if exists|child: u64| held.contains(child) {
        let child = choose|child: u64| held.contains(child);
        assert(children.contains(child));
        let at = choose|at: int|
            0 <= at < children.len() && first_in(children, held) == Some(children[at])
                && held.contains(#[trigger] children[at]) && forall|other: int|
                0 <= other < at ==> !held.contains(#[trigger] children[other]);
        assert(held.difference(plan.used()) =~= held.remove(children[at]));
        assert(after.env.incremented_symbols == with_one_more(
            between.env.incremented_symbols,
            held.remove(children[at]),
        ));
    } else {
        assert(held =~= Set::empty());
        assert(held.difference(plan.used()) =~= Set::empty());
        assert(with_one_more(between.env.incremented_symbols, Set::empty())
            =~= between.env.incremented_symbols);
    }
}

proof fn the_first_of_a_set(symbols: Seq<u64>, set: Set<u64>)
    ensures
        match first_in(symbols, set) {
            Some(symbol) => exists|at: int|
                0 <= at < symbols.len() && symbol == symbols[at] && set.contains(
                    #[trigger] symbols[at],
                ) && forall|other: int| 0 <= other < at ==> !set.contains(
                    #[trigger] symbols[other],
                ),
            None => forall|at: int| 0 <= at < symbols.len() ==> !set.contains(
                #[trigger] symbols[at],
            ),
        },
    decreases symbols.len(),
{
    if symbols.len() > 0 {
        let others = symbols.drop_last();
        let last = symbols.len() - 1;
        the_first_of_a_set(others, set);
        assert forall|at: int| 0 <= at < others.len() implies #[trigger] others[at]
            == symbols[at] by {}
        if let Some(symbol) = first_in(others, set) {
            let at = choose|at: int|
                0 <= at < others.len() && symbol == others[at] && set.contains(
                    #[trigger] others[at],
                ) && forall|other: int| 0 <= other < at ==> !set.contains(
                    #[trigger] others[other],
                );
            assert(set.contains(symbols[at]));
            assert forall|other: int| 0 <= other < at implies !set.contains(
                #[trigger] symbols[other],
            ) by {
                assert(others[other] == symbols[other]);
            }
        } else {
            assert forall|other: int| 0 <= other < last implies !set.contains(
                #[trigger] symbols[other],
            ) by {
                assert(others[other] == symbols[other]);
            }
            assert(symbols[last] == symbols.last());
        }
    }
}

/// Any other decrement of a symbol of which no increment is outstanding stays: that of a union, of
/// a value without parts, and of a struct of which nothing was taken out. While its continuation is
/// rewritten, one increment of each incremented child is not available, and all of them are
/// outstanding again afterwards. So an increment of a child before a decrement of its parent that
/// stays is never cancelled by a decrement of the child behind it.
pub proof fn other_decrements_stay<'a>(
    interner: Seq<LayoutEntry<'a>>,
    env: EnvironmentView,
    names: Seq<Seq<char>>,
    symbol: Symbol,
    continuation: &'a Stmt<'a>,
)
    requires
        rewritten(
            interner,
            env,
            names,
            Stmt::Refcounting(ModifyRc::Dec(symbol), continuation),
        ) is Some,
        has_proper_children(env, symbol),
        !env.incremented_symbols.contains_key(symbol.bits),
        env.symbol_layouts.contains_key(symbol.bits),
        env.symbol_layouts[symbol.bits].0 < interner.len(),
        match interner[env.symbol_layouts[symbol.bits].0 as int].layout {
            Layout::Struct { .. } => !env.struct_children.contains_key(symbol.bits),
            Layout::Boxed(_) => false,
            Layout::Builtin
            | Layout::Union
            | Layout::LambdaSet
            | Layout::RecursivePointer => true,
        },
    ensures
        ({
            let stmt = Stmt::Refcounting(ModifyRc::Dec(symbol), continuation);
            let held = incremented_children(env, symbol);
            let inside = EnvironmentView {
                incremented_symbols: with_one_less(env.incremented_symbols, held),
                ..env
            };
            let after = rewritten(interner, env, names, stmt)->0;
            &&& rewritten(interner, inside, names, *continuation) matches Some(between)
            &&& after.stmt == Stmt::Refcounting(ModifyRc::Dec(symbol), &between.stmt)
            &&& after.names == between.names
            &&& after.env == (EnvironmentView {
                incremented_symbols: with_one_more(between.env.incremented_symbols, held),
                ..between.env
            })
            &&& forall|child: u64| #[trigger]
                held.contains(child) ==> after.env.incremented_symbols.contains_key(child)
        }),
{
    let held = incremented_children(env, symbol);
    let (plan, between) = a_decrement_is_carried_out(interner, env, names, symbol, continuation);
    assert(held.difference(plan.used()) =~= held);
}

/// What a new increment of a child means for the children that are held back.
proof fn one_more_child_is_held_back(env: EnvironmentView, parent: Symbol, child: Symbol)
    requires
        has_proper_children(env, parent),
        taken_out_of(env, parent).contains(child.bits),
        !env.incremented_symbols.contains_key(child.bits),
    ensures
        ({
            let more = EnvironmentView {
                incremented_symbols: env.incremented_symbols.insert(child.bits, 1),
                ..env
            };
            let held = incremented_children(env, parent);
            let held_more = incremented_children(more, parent);
            &&& taken_out_of(more, parent) == taken_out_of(env, parent)
            &&& held_more == held.insert(child.bits)
            &&& !held.contains(child.bits)
            &&& with_one_less(more.incremented_symbols, held_more) == with_one_less(
                env.incremented_symbols,
                held,
            )
            &&& child != parent
        }),
{
    let more = EnvironmentView {
        incremented_symbols: env.incremented_symbols.insert(child.bits, 1),
        ..env
    };
    let held = incremented_children(env, parent);
    let held_more = incremented_children(more, parent);
    assert(taken_out_of(more, parent) == taken_out_of(env, parent));
    assert(held_more =~= held.insert(child.bits));
    assert(with_one_less(more.incremented_symbols, held_more) =~= with_one_less(
        env.incremented_symbols,
        held,
    ));
}

/// An increment of a child right before a decrement of its parent that stays is kept, whatever
/// follows: it has no influence on what stands behind it, and no decrement of the child behind it
/// cancels it.
pub proof fn a_child_outlives_its_parent<'a>(
    interner: Seq<LayoutEntry<'a>>,
    env: EnvironmentView,
    names: Seq<Seq<char>>,
    parent: Symbol,
    child: Symbol,
    continuation: &'a Stmt<'a>,
)
    requires
        has_proper_children(env, parent),
        taken_out_of(env, parent).contains(child.bits),
        !env.incremented_symbols.contains_key(child.bits),
        !env.incremented_symbols.contains_key(parent.bits),
        env.symbol_layouts.contains_key(parent.bits),
        env.symbol_layouts[parent.bits].0 < interner.len(),
        match interner[env.symbol_layouts[parent.bits].0 as int].layout {
            Layout::Struct { .. } => !env.struct_children.contains_key(parent.bits),
            Layout::Boxed(_) => false,
            Layout::Builtin
            | Layout::Union
            | Layout::LambdaSet
            | Layout::RecursivePointer => true,
        },
        rewritten(
            interner,
            env,
            names,
            Stmt::Refcounting(ModifyRc::Dec(parent), continuation),
        ) is Some,
        rewritten(
            interner,
            env,
            names,
            Stmt::Refcounting(
                ModifyRc::Inc(child, 1),
                &Stmt::Refcounting(ModifyRc::Dec(parent), continuation),
            ),
        ) is Some,
    ensures
        ({
            let dec = Stmt::Refcounting(ModifyRc::Dec(parent), continuation);
            let after = rewritten(interner, env, names, dec)->0;
            rewritten(
                interner,
                env,
                names,
                Stmt::Refcounting(ModifyRc::Inc(child, 1), &dec),
            ) == Some(
                Rewritten {
                    stmt: Stmt::Refcounting(ModifyRc::Inc(child, 1), &after.stmt),
                    ..after
                },
            )
        }),
{
    let dec = Stmt::Refcounting(ModifyRc::Dec(parent), continuation);
    let more = EnvironmentView {
        incremented_symbols: env.incremented_symbols.insert(child.bits, 1),
        ..env
    };
    the_first_increment_performs_all(interner, env, names, child, 1, &dec);
    one_more_child_is_held_back(env, parent, child);
    other_decrements_stay(interner, env, names, parent, continuation);
    other_decrements_stay(interner, more, names, parent, continuation);
    increments_are_performed(interner, env, names, dec);
    let after = rewritten(interner, env, names, dec)->0;
    let after_more = rewritten(interner, more, names, dec)->0;
    assert(!after.env.incremented_symbols.contains_key(child.bits));
    assert(after_more.env.incremented_symbols =~= after.env.incremented_symbols.insert(
        child.bits,
        1,
    ));
    assert(after_more.env.incremented_symbols.remove(child.bits)
        =~= after.env.incremented_symbols);
    assert((EnvironmentView {
        incremented_symbols: after_more.env.incremented_symbols.remove(child.bits),
        ..after_more.env
    }) =~= after.env);
}

/// Each increment of a child right before a decrement of its struct takes the decrement of its
/// field out and goes itself, whatever else was incremented and whatever follows: but for that
/// field the struct is taken apart in the same way as without it, and the same is outstanding
/// afterwards.
pub proof fn each_incremented_child_takes_its_field_out<'a>(
    interner: Seq<LayoutEntry<'a>>,
    env: EnvironmentView,
    names: Seq<Seq<char>>,
    parent: Symbol,
    at: int,
    field_layouts: &'a [InLayout],
    continuation: &'a Stmt<'a>,
)
    requires
        has_proper_children(env, parent),
        env.struct_children.contains_key(parent.bits),
        0 <= at < env.struct_children[parent.bits].len(),
        env.struct_children[parent.bits][at].1 < field_layouts@.len(),
        !has_child_in(
            env.struct_children[parent.bits],
            env.struct_children[parent.bits][at].1 as int,
            env.incremented_symbols.dom(),
        ),
        !env.incremented_symbols.contains_key(parent.bits),
        env.symbol_layouts.contains_key(parent.bits),
        env.symbol_layouts[parent.bits].0 < interner.len(),
        interner[env.symbol_layouts[parent.bits].0 as int].layout == (Layout::Struct {
            field_layouts,
        }),
        rewritten(
            interner,
            env,
            names,
            Stmt::Refcounting(ModifyRc::Dec(parent), continuation),
        ) is Some,
        rewritten(
            interner,
            env,
            names,
            Stmt::Refcounting(
                ModifyRc::Inc(Symbol { bits: env.struct_children[parent.bits][at].0 }, 1),
                &Stmt::Refcounting(ModifyRc::Dec(parent), continuation),
            ),
        ) is Some,
    ensures
        ({
            let children = env.struct_children[parent.bits];
            let child = Symbol { bits: children[at].0 };
            let held = incremented_children(env, parent);
            let dec = Stmt::Refcounting(ModifyRc::Dec(parent), continuation);
            let inside = EnvironmentView {
                incremented_symbols: with_one_less(env.incremented_symbols, held),
                ..env
            };
            let without = rewritten(interner, env, names, dec)->0;
            let with = rewritten(
                interner,
                env,
                names,
                Stmt::Refcounting(ModifyRc::Inc(child, 1), &dec),
            )->0;
            &&& rewritten(interner, inside, names, *continuation) matches Some(between)
            &&& decrements_fields(
                interner,
                parent,
                field_layouts,
                children,
                held,
                0,
                without.stmt,
                between.stmt,
            )
            &&& decrements_fields(
                interner,
                parent,
                field_layouts,
                children,
                held.insert(child.bits),
                0,
                with.stmt,
                between.stmt,
            )
            &&& with.env == without.env
        }),
{
    let children = env.struct_children[parent.bits];
    let index = children[at].1;
    let count = field_layouts@.len();
    let child = Symbol { bits: children[at].0 };
    let held = incremented_children(env, parent);
    let dec = Stmt::Refcounting(ModifyRc::Dec(parent), continuation);
    let more = EnvironmentView {
        incremented_symbols: env.incremented_symbols.insert(child.bits, 1),
        ..env
    };
    let all = taken_out_of(env, parent);
    assert forall|i: int| 0 <= i < children.len() implies all[i] == (#[trigger] children[i]).0 by {
        assert(all[i] == children.map_values(|child: (u64, u64)| child.0)[i]);
    }
    assert(all[at] == child.bits);
    assert(children[at].1 == index);
    the_first_increment_performs_all(interner, env, names, child, 1, &dec);
    one_more_child_is_held_back(env, parent, child);
    a_struct_is_taken_apart(interner, env, names, parent, field_layouts, continuation);
    a_struct_is_taken_apart(interner, more, names, parent, field_layouts, continuation);
    let held_more = held.insert(child.bits);
    let paired = paired_children(children, count, held);
    let paired_more = paired_children(children, count, held_more);
    assert forall|other: int|
        0 <= other < children.len() && (#[trigger] children[other]).1 == index implies !(
    held.contains(children[other].0)) by {
        assert(!env.incremented_symbols.dom().contains(children[other].0));
    }
    assert forall|c: u64|
        is_paired(children, count, held_more, c) == (is_paired(children, count, held, c) || c
            == child.bits) by {
        if is_paired(children, count, held_more, c) && c != child.bits {
            let first = choose|first: int|
                0 <= first < children.len() && (#[trigger] children[first]).0 == c
                    && children[first].1 < count && is_first_in(
                    children,
                    first,
                    children[first].1 as int,
                    held_more,
                );
            assert(is_first_in(children, first, children[first].1 as int, held));
        }
        if is_paired(children, count, held, c) {
            let first = choose|first: int|
                0 <= first < children.len() && (#[trigger] children[first]).0 == c
                    && children[first].1 < count && is_first_in(
                    children,
                    first,
                    children[first].1 as int,
                    held,
                );
            assert(children[first].1 != index);
            assert forall|other: int|
                0 <= other < first && (
                #[trigger] children[other]).1 == children[first].1 implies !held_more.contains(
                children[other].0,
            ) by {
                if children[other].0 == child.bits {
                    assert(all[other] == all[at]);
                }
            }
            assert(is_first_in(children, first, children[first].1 as int, held_more));
        }
        if c == child.bits {
            assert forall|other: int|
                0 <= other < at && (
                #[trigger] children[other]).1 == index implies !held_more.contains(
                children[other].0,
            ) by {
                assert(all[other] != all[at]);
            }
            assert(is_first_in(children, at, index as int, held_more));
        }
    }
    assert(held_more.difference(paired_more) =~= held.difference(paired));
    let without = rewritten(interner, env, names, dec)->0;
    increments_are_performed(interner, env, names, dec);
    assert(!without.env.incremented_symbols.contains_key(child.bits));
    assert(without.env.incremented_symbols.remove(child.bits)
        =~= without.env.incremented_symbols);
    assert((EnvironmentView {
        incremented_symbols: without.env.incremented_symbols.remove(child.bits),
        ..without.env
    }) =~= without.env);
}

} // verus!
