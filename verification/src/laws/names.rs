//! What the names that a module has already mean for the pass: only the numbers of new symbols
//! depend on them.
use crate::environment::{fresh_symbol, increments_added, EnvironmentView};
use crate::ir::{Branches, Expr, ModifyRc, Proc, ProcLayout, Stmt};
use crate::laws::balance::{
    arguments_add_only_layouts, counted, parameters_add_only_layouts,
    symbols_of_fields_are_children,
};
use crate::laws::procedures::{
    each_procedure_is_rewritten_on_its_own, procedures_add_only_field_names,
};
use crate::laws::shape::{
    a_fresh_symbol_is_newer, branches_keep_the_shape, is_newer, released_fields_keep_the_shape,
    rewriting_keeps_the_shape,
};
use crate::layout::{InLayout, LayoutEntry};
use crate::rewriting::{
    dec_finished, dec_prepared, env_after_binding, env_with_arguments, env_with_parameters,
    fields_released, forgets_increments, increments_popped, rewritten, rewritten_branches,
    rewritten_proc, rewritten_procs, DecPlan,
};
use crate::symbol::{IdentId, ModuleId, Symbol};
use vstd::prelude::*;

verus! {

/// A symbol with another number, if it is a newer one.
pub open spec fn renumbered_symbol(
    home: ModuleId,
    count: nat,
    shift: int,
    symbol: Symbol,
) -> Symbol {
    if is_newer(home, count, symbol) {
        Symbol::spec_new(home, IdentId((symbol.spec_ident_id().0 + shift) as u32))
    } else {
        symbol
    }
}

/// A change of a count with another number for a newer symbol.
pub open spec fn renumbered_rc(
    home: ModuleId,
    count: nat,
    shift: int,
    rc: ModifyRc,
) -> ModifyRc {
    match rc {
        ModifyRc::Inc(symbol, n) => ModifyRc::Inc(
            renumbered_symbol(home, count, shift, symbol),
            n,
        ),
        ModifyRc::Dec(symbol) => ModifyRc::Dec(renumbered_symbol(home, count, shift, symbol)),
        ModifyRc::DecRef(symbol) => ModifyRc::DecRef(
            renumbered_symbol(home, count, shift, symbol),
        ),
    }
}

/// A statement with other numbers for the newer symbols that it binds and counts.
pub open spec fn renumbered<'a>(
    home: ModuleId,
    count: nat,
    shift: int,
    stmt: Stmt<'a>,
) -> Stmt<'a>
    decreases stmt,
{
    match stmt {
        Stmt::Let(binding, expr, layout, continuation) => Stmt::Let(
            renumbered_symbol(home, count, shift, binding),
            expr,
            layout,
            &renumbered(home, count, shift, *continuation),
        ),
        Stmt::Switch { cond_symbol, cond_layout, branches, default_branch, ret_layout } => {
            Stmt::Switch {
                cond_symbol,
                cond_layout,
                branches: &renumbered_branches(home, count, shift, *branches),
                default_branch: (
                    default_branch.0,
                    &renumbered(home, count, shift, *default_branch.1),
                ),
                ret_layout,
            }
        },
        Stmt::Refcounting(rc, continuation) => Stmt::Refcounting(
            renumbered_rc(home, count, shift, rc),
            &renumbered(home, count, shift, *continuation),
        ),
        Stmt::Expect { condition, region, lookups, variables, remainder } => Stmt::Expect {
            condition,
            region,
            lookups,
            variables,
            remainder: &renumbered(home, count, shift, *remainder),
        },
        Stmt::ExpectFx { condition, region, lookups, variables, remainder } => Stmt::ExpectFx {
            condition,
            region,
            lookups,
            variables,
            remainder: &renumbered(home, count, shift, *remainder),
        },
        Stmt::Dbg { symbol, variable, remainder } => Stmt::Dbg {
            symbol,
            variable,
            remainder: &renumbered(home, count, shift, *remainder),
        },
        Stmt::Join { id, parameters, body, remainder } => Stmt::Join {
            id,
            parameters,
            body: &renumbered(home, count, shift, *body),
            remainder: &renumbered(home, count, shift, *remainder),
        },
        Stmt::Ret(_) | Stmt::Jump(_, _) | Stmt::Crash(_, _) => stmt,
    }
}

pub open spec fn renumbered_branches<'a>(
    home: ModuleId,
    count: nat,
    shift: int,
    branches: Branches<'a>,
) -> Branches<'a>
    decreases branches,
{
    match branches {
        Branches::Nil => branches,
        Branches::Cons { label, info, branch, rest } => Branches::Cons {
            label,
            info,
            branch: &renumbered(home, count, shift, *branch),
            rest: &renumbered_branches(home, count, shift, *rest),
        },
    }
}

/// Whether two statements differ only in the numbers of released fields: newer symbols that a field
/// of a struct is bound to and that are decremented right behind that.
pub open spec fn differs_in_numbers(
    home: ModuleId,
    count: nat,
    shift: int,
    stmt: Stmt<'_>,
    other: Stmt<'_>,
) -> bool
    decreases stmt,
{
    match stmt {
        Stmt::Let(binding, expr, layout, rest) => {
            &&& other matches Stmt::Let(other_binding, other_expr, other_layout, other_rest)
            &&& other_expr == expr
            &&& other_layout == layout
            &&& {
                ||| {
                    &&& other_binding == binding
                    &&& differs_in_numbers(home, count, shift, *rest, *other_rest)
                }
                ||| {
                    &&& expr is StructAtIndex
                    &&& is_newer(home, count, binding)
                    &&& other_binding == renumbered_symbol(home, count, shift, binding)
                    &&& release_differs_in_numbers(
                        home,
                        count,
                        shift,
                        binding,
                        other_binding,
                        *rest,
                        *other_rest,
                    )
                }
            }
        },
        Stmt::Switch { cond_symbol, cond_layout, branches, default_branch, ret_layout } => {
            &&& other matches Stmt::Switch {
                cond_symbol: other_symbol,
                cond_layout: other_layout,
                branches: other_branches,
                default_branch: other_default,
                ret_layout: other_ret_layout,
            }
            &&& other_symbol == cond_symbol
            &&& other_layout == cond_layout
            &&& other_ret_layout == ret_layout
            &&& other_default.0 == default_branch.0
            &&& branches_differ_in_numbers(home, count, shift, *branches, *other_branches)
            &&& differs_in_numbers(home, count, shift, *default_branch.1, *other_default.1)
        },
        Stmt::Refcounting(rc, rest) => {
            &&& other matches Stmt::Refcounting(other_rc, other_rest)
            &&& other_rc == rc
            &&& differs_in_numbers(home, count, shift, *rest, *other_rest)
        },
        Stmt::Expect { condition, region, lookups, variables, remainder } => {
            &&& other matches Stmt::Expect { remainder: rest, .. }
            &&& other == (Stmt::Expect { condition, region, lookups, variables, remainder: rest })
            &&& differs_in_numbers(home, count, shift, *remainder, *rest)
        },
        Stmt::ExpectFx { condition, region, lookups, variables, remainder } => {
            &&& other matches Stmt::ExpectFx { remainder: rest, .. }
            &&& other == (Stmt::ExpectFx { condition, region, lookups, variables, remainder: rest })
            &&& differs_in_numbers(home, count, shift, *remainder, *rest)
        },
        Stmt::Dbg { symbol, variable, remainder } => {
            &&& other matches Stmt::Dbg { remainder: rest, .. }
            &&& other == (Stmt::Dbg { symbol, variable, remainder: rest })
            &&& differs_in_numbers(home, count, shift, *remainder, *rest)
        },
        Stmt::Join { id, parameters, body, remainder } => {
            &&& other matches Stmt::Join { body: inside, remainder: rest, .. }
            &&& other == (Stmt::Join { id, parameters, body: inside, remainder: rest })
            &&& differs_in_numbers(home, count, shift, *body, *inside)
            &&& differs_in_numbers(home, count, shift, *remainder, *rest)
        },
        Stmt::Ret(_) | Stmt::Jump(_, _) | Stmt::Crash(_, _) => other == stmt,
    }
}

/// Whether two statements decrement a symbol each first, and then differ only in numbers.
pub open spec fn release_differs_in_numbers(
    home: ModuleId,
    count: nat,
    shift: int,
    symbol: Symbol,
    other_symbol: Symbol,
    stmt: Stmt<'_>,
    other: Stmt<'_>,
) -> bool
    decreases stmt,
{
    &&& stmt matches Stmt::Refcounting(rc, rest)
    &&& other matches Stmt::Refcounting(other_rc, other_rest)
    &&& rc == ModifyRc::Dec(symbol)
    &&& other_rc == ModifyRc::Dec(other_symbol)
    &&& differs_in_numbers(home, count, shift, *rest, *other_rest)
}

pub open spec fn branches_differ_in_numbers(
    home: ModuleId,
    count: nat,
    shift: int,
    branches: Branches<'_>,
    other: Branches<'_>,
) -> bool
    decreases branches,
{
    match branches {
        Branches::Nil => other is Nil,
        Branches::Cons { label, info, branch, rest } => {
            &&& other matches Branches::Cons {
                label: other_label,
                info: other_info,
                branch: other_branch,
                rest: other_rest,
            }
            &&& other_label == label
            &&& other_info == info
            &&& differs_in_numbers(home, count, shift, *branch, *other_branch)
            &&& branches_differ_in_numbers(home, count, shift, *rest, *other_rest)
        },
    }
}

/// Whether a statement binds and counts no newer symbol.
pub open spec fn is_old(home: ModuleId, count: nat, stmt: Stmt<'_>) -> bool
    decreases stmt,
{
    match stmt {
        Stmt::Let(binding, _, _, continuation) => !is_newer(home, count, binding) && is_old(
            home,
            count,
            *continuation,
        ),
        Stmt::Switch { branches, default_branch, .. } => are_old(home, count, *branches) && is_old(
            home,
            count,
            *default_branch.1,
        ),
        Stmt::Refcounting(rc, continuation) => !is_newer(home, count, counted(rc)) && is_old(
            home,
            count,
            *continuation,
        ),
        Stmt::Expect { remainder, .. } => is_old(home, count, *remainder),
        Stmt::ExpectFx { remainder, .. } => is_old(home, count, *remainder),
        Stmt::Dbg { remainder, .. } => is_old(home, count, *remainder),
        Stmt::Join { body, remainder, .. } => is_old(home, count, *body) && is_old(
            home,
            count,
            *remainder,
        ),
        Stmt::Ret(_) | Stmt::Jump(_, _) | Stmt::Crash(_, _) => true,
    }
}

pub open spec fn are_old(home: ModuleId, count: nat, branches: Branches<'_>) -> bool
    decreases branches,
{
    match branches {
        Branches::Nil => true,
        Branches::Cons { branch, rest, .. } => is_old(home, count, *branch) && are_old(
            home,
            count,
            *rest,
        ),
    }
}

/// Whether an environment knows no newer symbol as a struct child.
pub open spec fn knows_only_old(env: EnvironmentView, count: nat) -> bool {
    forall|parent: Symbol, i: int|
        0 <= i < env.struct_children_of(parent).len() ==> !is_newer(
            env.home,
            count,
            Symbol { bits: (#[trigger] env.struct_children_of(parent)[i]).0 },
        )
}

proof fn old_statements_stay_old(home: ModuleId, count: nat, more: nat, stmt: Stmt<'_>)
    requires
        count <= more,
        is_old(home, count, stmt),
    ensures
        is_old(home, more, stmt),
    decreases stmt,
{
    match stmt {
        Stmt::Let(_, _, _, continuation) => {
            old_statements_stay_old(home, count, more, *continuation);
        },
        Stmt::Switch { branches, default_branch, .. } => {
            old_branches_stay_old(home, count, more, *branches);
            old_statements_stay_old(home, count, more, *default_branch.1);
        },
        Stmt::Refcounting(_, continuation) => {
            old_statements_stay_old(home, count, more, *continuation);
        },
        Stmt::Expect { remainder, .. } => {
            old_statements_stay_old(home, count, more, *remainder);
        },
        Stmt::ExpectFx { remainder, .. } => {
            old_statements_stay_old(home, count, more, *remainder);
        },
        Stmt::Dbg { remainder, .. } => {
            old_statements_stay_old(home, count, more, *remainder);
        },
        Stmt::Join { body, remainder, .. } => {
            old_statements_stay_old(home, count, more, *body);
            old_statements_stay_old(home, count, more, *remainder);
        },
        Stmt::Ret(_) | Stmt::Jump(_, _) | Stmt::Crash(_, _) => {},
    }
}

proof fn old_branches_stay_old(home: ModuleId, count: nat, more: nat, branches: Branches<'_>)
    requires
        count <= more,
        are_old(home, count, branches),
    ensures
        are_old(home, more, branches),
    decreases branches,
{
    if let Branches::Cons { branch, rest, .. } = branches {
        old_statements_stay_old(home, count, more, *branch);
        old_branches_stay_old(home, count, more, *rest);
    }
}

proof fn other_increments_stay_old(env: EnvironmentView, other: EnvironmentView, count: nat)
    requires
        knows_only_old(env, count),
        other.home == env.home,
        other.struct_children == env.struct_children,
    ensures
        knows_only_old(other, count),
{
    assert forall|parent: Symbol, i: int|
        0 <= i < other.struct_children_of(parent).len() implies !is_newer(
        other.home,
        count,
        Symbol { bits: (#[trigger] other.struct_children_of(parent)[i]).0 },
    ) by {
        assert(other.struct_children_of(parent)[i] == env.struct_children_of(parent)[i]);
    }
}

proof fn old_bindings_stay_old(
    env: EnvironmentView,
    binding: Symbol,
    expr: Expr<'_>,
    layout: InLayout,
    count: nat,
)
    requires
        knows_only_old(env, count),
        !is_newer(env.home, count, binding),
    ensures
        knows_only_old(env_after_binding(env, binding, expr, layout), count),
{
    let after = env_after_binding(env, binding, expr, layout);
    assert forall|parent: Symbol, i: int|
        0 <= i < after.struct_children_of(parent).len() implies !is_newer(
        after.home,
        count,
        Symbol { bits: (#[trigger] after.struct_children_of(parent)[i]).0 },
    ) by {
        let before = env.struct_children_of(parent);
        if i < before.len() {
            assert(after.struct_children_of(parent)[i] == before[i]);
        } else {
            assert(Symbol { bits: binding.bits } == binding);
        }
    }
}

/// Whether the names that were added have numbers also behind others.
pub open spec fn are_numbered(
    names: Seq<Seq<char>>,
    after: Seq<Seq<char>>,
    others: Seq<Seq<char>>,
) -> bool {
    names.len() < after.len() ==> others.len() + after.len() - names.len() <= u32::MAX + 1
}

/// The names that were added in two steps are those that were added in one.
proof fn added_names_join(
    others: Seq<Seq<char>>,
    first: Seq<Seq<char>>,
    second: Seq<Seq<char>>,
    third: Seq<Seq<char>>,
)
    requires
        first.len() <= second.len() <= third.len(),
        second == third.take(second.len() as int),
    ensures
        others + second.skip(first.len() as int) + third.skip(second.len() as int) == others
            + third.skip(first.len() as int),
{
    let joined = second.skip(first.len() as int) + third.skip(second.len() as int);
    assert(joined =~= third.skip(first.len() as int)) by {
        assert forall|i: int| 0 <= i < second.len() implies second[i] == third[i] by {
            assert(second[i] == third.take(second.len() as int)[i]);
        }
    }
    assert(others + second.skip(first.len() as int) + third.skip(second.len() as int) =~= others
        + joined);
}

/// Whether the symbols of fields from a given one on are no newer ones.
spec fn are_old_fields(
    home: ModuleId,
    count: nat,
    symbols: Seq<Option<u64>>,
    from: nat,
    to: nat,
) -> bool {
    forall|i: int|
        from <= i < to && (#[trigger] symbols[i]) is Some ==> !is_newer(
            home,
            count,
            Symbol { bits: symbols[i]->0 },
        )
}

proof fn released_fields_differ_in_numbers<'a>(
    interner: Seq<LayoutEntry<'a>>,
    home: ModuleId,
    structure: Symbol,
    field_layouts: &'a [InLayout],
    symbols: Seq<Option<u64>>,
    used: Set<u64>,
    from: nat,
    stmt: Stmt<'a>,
    other: Stmt<'a>,
    names: Seq<Seq<char>>,
    others: Seq<Seq<char>>,
    count: nat,
    shift: int,
)
    requires
        count <= names.len(),
        others.len() == names.len() + shift,
        fields_released(interner, home, structure, field_layouts, symbols, used, from, stmt, names)
            is Some,
        are_numbered(
            names,
            (fields_released(
                interner,
                home,
                structure,
                field_layouts,
                symbols,
                used,
                from,
                stmt,
                names,
            )->0).1,
            others,
        ),
        differs_in_numbers(home, count, shift, stmt, other),
    ensures
        ({
            let (released, after) = fields_released(
                interner,
                home,
                structure,
                field_layouts,
                symbols,
                used,
                from,
                stmt,
                names,
            )->0;
            let other_after = fields_released(
                interner,
                home,
                structure,
                field_layouts,
                symbols,
                used,
                from,
                other,
                others,
            );
            &&& other_after is Some
            &&& differs_in_numbers(home, count, shift, released, (other_after->0).0)
            &&& (other_after->0).1 == others + after.skip(names.len() as int)
            &&& are_old_fields(home, count, symbols, from, field_layouts@.len()) && other
                == renumbered(home, count, shift, stmt) ==> (other_after->0).0 == renumbered(
                home,
                count,
                shift,
                released,
            )
        }),
    decreases field_layouts@.len() - from,
{
    if from < field_layouts@.len() {
        let (rest, between) = fields_released(
            interner,
            home,
            structure,
            field_layouts,
            symbols,
            used,
            from + 1,
            stmt,
            names,
        )->0;
        let (released, after) = fields_released(
            interner,
            home,
            structure,
            field_layouts,
            symbols,
            used,
            from,
            stmt,
            names,
        )->0;
        released_fields_differ_in_numbers(
            interner,
            home,
            structure,
            field_layouts,
            symbols,
            used,
            from + 1,
            stmt,
            other,
            names,
            others,
            count,
            shift,
        );
        released_fields_keep_the_shape(
            interner,
            home,
            structure,
            field_layouts,
            symbols,
            used,
            from + 1,
            stmt,
            names,
            count,
            structure,
        );
        let other_between = others + between.skip(names.len() as int);
        assert(other_between.len() == between.len() + shift);
        reveal_with_fuel(renumbered, 3);
        reveal_with_fuel(differs_in_numbers, 3);
        if after != between {
            let fresh = fresh_symbol(home, between);
            a_fresh_symbol_is_newer(home, between);
            assert(is_newer(home, count, fresh));
            assert(renumbered_symbol(home, count, shift, fresh) == fresh_symbol(
                home,
                other_between,
            ));
            assert(others + after.skip(names.len() as int) =~= other_between.push(after.last()));
        }
        if are_old_fields(home, count, symbols, from, field_layouts@.len()) {
            assert(symbols[from as int] is Some ==> !is_newer(
                home,
                count,
                Symbol { bits: symbols[from as int]->0 },
            ));
        }
    } else {
        assert(others + names.skip(names.len() as int) =~= others);
    }
}

proof fn rewriting_differs_in_numbers<'a>(
    interner: Seq<LayoutEntry<'a>>,
    env: EnvironmentView,
    names: Seq<Seq<char>>,
    stmt: Stmt<'a>,
    others: Seq<Seq<char>>,
    count: nat,
    shift: int,
)
    requires
        count <= names.len(),
        others.len() == names.len() + shift,
        rewritten(interner, env, names, stmt) is Some,
        are_numbered(names, (rewritten(interner, env, names, stmt)->0).names, others),
    ensures
        ({
            let after = rewritten(interner, env, names, stmt)->0;
            let other = rewritten(interner, env, others, stmt)->0;
            &&& rewritten(interner, env, others, stmt) is Some
            &&& differs_in_numbers(env.home, count, shift, after.stmt, other.stmt)
            &&& other.env == after.env
            &&& other.names == others + after.names.skip(names.len() as int)
            &&& is_old(env.home, count, stmt) && knows_only_old(env, count) ==> other.stmt
                == renumbered(env.home, count, shift, after.stmt)
        }),
    decreases stmt, 0nat,
{
    let home = env.home;
    let old = is_old(home, count, stmt) && knows_only_old(env, count);
    let after = rewritten(interner, env, names, stmt)->0;
    match stmt {
        Stmt::Let(binding, expr, layout, continuation) => {
            let inner = env_after_binding(env, binding, expr, layout);
            if old {
                old_bindings_stay_old(env, binding, expr, layout, count);
            }
            if forgets_increments(expr) {
                let cleared = inner.without_incremented();
                if old {
                    other_increments_stay_old(inner, cleared, count);
                }
                rewriting_differs_in_numbers(
                    interner,
                    cleared,
                    names,
                    *continuation,
                    others,
                    count,
                    shift,
                );
            } else {
                rewriting_differs_in_numbers(
                    interner,
                    inner,
                    names,
                    *continuation,
                    others,
                    count,
                    shift,
                );
            }
        },
        Stmt::Switch { branches, default_branch, .. } => {
            let cleared = env.without_incremented();
            let (_, between) = rewritten_branches(interner, env, names, *branches)->0;
            let other_between = others + between.skip(names.len() as int);
            branches_keep_the_shape(interner, env, names, *branches, count, Symbol { bits: 0 });
            rewriting_keeps_the_shape(
                interner,
                cleared,
                between,
                *default_branch.1,
                count,
                Symbol { bits: 0 },
            );
            if old {
                other_increments_stay_old(env, cleared, count);
            }
            rewritten_branches_differ_in_numbers(
                interner,
                env,
                names,
                *branches,
                others,
                count,
                shift,
            );
            rewriting_differs_in_numbers(
                interner,
                cleared,
                between,
                *default_branch.1,
                other_between,
                count,
                shift,
            );
            added_names_join(others, names, between, after.names);
        },
        Stmt::Ret(_) | Stmt::Jump(_, _) | Stmt::Crash(_, _) => {
            assert(others + names.skip(names.len() as int) =~= others);
        },
        Stmt::Refcounting(rc, continuation) => match rc {
            ModifyRc::Inc(symbol, n) => {
                let inner = env.with_increments(
                    increments_added(env.incremented_symbols, symbol.bits, n),
                );
                if old {
                    other_increments_stay_old(env, inner, count);
                }
                rewriting_differs_in_numbers(
                    interner,
                    inner,
                    names,
                    *continuation,
                    others,
                    count,
                    shift,
                );
            },
            ModifyRc::Dec(symbol) => {
                decrement_differs_in_numbers(
                    interner,
                    env,
                    names,
                    symbol,
                    continuation,
                    others,
                    count,
                    shift,
                );
            },
            ModifyRc::DecRef(_) => {
                rewriting_differs_in_numbers(
                    interner,
                    env,
                    names,
                    *continuation,
                    others,
                    count,
                    shift,
                );
            },
        },
        Stmt::Expect { remainder, .. } => {
            rewriting_differs_in_numbers(interner, env, names, *remainder, others, count, shift);
        },
        Stmt::ExpectFx { remainder, .. } => {
            rewriting_differs_in_numbers(interner, env, names, *remainder, others, count, shift);
        },
        Stmt::Dbg { remainder, .. } => {
            rewriting_differs_in_numbers(interner, env, names, *remainder, others, count, shift);
        },
        Stmt::Join { parameters, body, remainder, .. } => {
            let cleared = env.without_incremented();
            let inside = env_with_parameters(cleared, parameters@);
            let between = (rewritten(interner, inside, names, *body)->0).names;
            let other_between = others + between.skip(names.len() as int);
            parameters_add_only_layouts(cleared, parameters@);
            if old {
                other_increments_stay_old(env, inside, count);
            }
            rewriting_keeps_the_shape(interner, inside, names, *body, count, Symbol { bits: 0 });
            rewriting_keeps_the_shape(
                interner,
                env,
                between,
                *remainder,
                count,
                Symbol { bits: 0 },
            );
            rewriting_differs_in_numbers(interner, inside, names, *body, others, count, shift);
            rewriting_differs_in_numbers(
                interner,
                env,
                between,
                *remainder,
                other_between,
                count,
                shift,
            );
            added_names_join(others, names, between, after.names);
        },
    }
}

proof fn decrement_differs_in_numbers<'a>(
    interner: Seq<LayoutEntry<'a>>,
    env: EnvironmentView,
    names: Seq<Seq<char>>,
    symbol: Symbol,
    continuation: &'a Stmt<'a>,
    others: Seq<Seq<char>>,
    count: nat,
    shift: int,
)
    requires
        ({
            let stmt = Stmt::Refcounting(ModifyRc::Dec(symbol), continuation);
            &&& count <= names.len()
            &&& others.len() == names.len() + shift
            &&& rewritten(interner, env, names, stmt) is Some
            &&& are_numbered(names, (rewritten(interner, env, names, stmt)->0).names, others)
        }),
    ensures
        ({
            let stmt = Stmt::Refcounting(ModifyRc::Dec(symbol), continuation);
            let after = rewritten(interner, env, names, stmt)->0;
            let other = rewritten(interner, env, others, stmt)->0;
            &&& rewritten(interner, env, others, stmt) is Some
            &&& differs_in_numbers(env.home, count, shift, after.stmt, other.stmt)
            &&& other.env == after.env
            &&& other.names == others + after.names.skip(names.len() as int)
            &&& is_old(env.home, count, stmt) && knows_only_old(env, count) ==> other.stmt
                == renumbered(env.home, count, shift, after.stmt)
        }),
    decreases *continuation, 1nat,
{
    let stmt = Stmt::Refcounting(ModifyRc::Dec(symbol), continuation);
    let home = env.home;
    let old = is_old(home, count, stmt) && knows_only_old(env, count);
    let after = rewritten(interner, env, names, stmt)->0;
    let (inner, plan, restored) = dec_prepared(interner, env, symbol)->0;
    let between = rewritten(interner, inner, names, *continuation)->0;
    let other_between = others + between.names.skip(names.len() as int);
    assert(Some(after) == dec_finished(interner, symbol, plan, restored, between));
    rewriting_keeps_the_shape(interner, inner, names, *continuation, count, symbol);
    if old {
        other_increments_stay_old(env, inner, count);
    }
    if let DecPlan::Fields { field_layouts, symbols, used } = plan {
        released_fields_keep_the_shape(
            interner,
            home,
            symbol,
            field_layouts,
            symbols,
            used,
            0,
            between.stmt,
            between.names,
            count,
            symbol,
        );
    }
    rewriting_differs_in_numbers(
        interner,
        inner,
        names,
        *continuation,
        others,
        count,
        shift,
    );
    let other = rewritten(interner, inner, others, *continuation)->0;
    if let DecPlan::Fields { field_layouts, symbols, used } = plan {
        let (_, incremented) = increments_popped(
            env.incremented_symbols,
            env.children_of(symbol),
        )->0;
        let children = env.struct_children_of(symbol);
        symbols_of_fields_are_children(children, field_layouts@.len(), incremented);
        if old {
            assert forall|i: int|
                0 <= i < field_layouts@.len() && (
                #[trigger] symbols[i]) is Some implies !is_newer(
                home,
                count,
                Symbol { bits: symbols[i]->0 },
            ) by {
                let p = choose|p: int|
                    0 <= p < children.len() && #[trigger] children[p].0 == symbols[i]->0
                        && children[p].1 == i;
                assert(!is_newer(
                    home,
                    count,
                    Symbol { bits: env.struct_children_of(symbol)[p].0 },
                ));
            }
            assert(are_old_fields(home, count, symbols, 0, field_layouts@.len()));
        }
        released_fields_differ_in_numbers(
            interner,
            home,
            symbol,
            field_layouts,
            symbols,
            used,
            0,
            between.stmt,
            other.stmt,
            between.names,
            other_between,
            count,
            shift,
        );
        added_names_join(others, names, between.names, after.names);
    }
    assert(rewritten(interner, env, others, stmt) == dec_finished(
        interner,
        symbol,
        plan,
        restored,
        other,
    ));
}

proof fn rewritten_branches_differ_in_numbers<'a>(
    interner: Seq<LayoutEntry<'a>>,
    env: EnvironmentView,
    names: Seq<Seq<char>>,
    branches: Branches<'a>,
    others: Seq<Seq<char>>,
    count: nat,
    shift: int,
)
    requires
        count <= names.len(),
        others.len() == names.len() + shift,
        rewritten_branches(interner, env, names, branches) is Some,
        are_numbered(names, (rewritten_branches(interner, env, names, branches)->0).1, others),
    ensures
        ({
            let (new_branches, after) = rewritten_branches(interner, env, names, branches)->0;
            let (other, other_after) = rewritten_branches(interner, env, others, branches)->0;
            &&& rewritten_branches(interner, env, others, branches) is Some
            &&& branches_differ_in_numbers(env.home, count, shift, new_branches, other)
            &&& other_after == others + after.skip(names.len() as int)
            &&& are_old(env.home, count, branches) && knows_only_old(env, count) ==> other
                == renumbered_branches(env.home, count, shift, new_branches)
        }),
    decreases branches, 0nat,
{
    if let Branches::Cons { branch, rest, .. } = branches {
        let inner = env.without_incremented();
        let between = (rewritten(interner, inner, names, *branch)->0).names;
        let other_between = others + between.skip(names.len() as int);
        let (_, after) = rewritten_branches(interner, env, names, branches)->0;
        if knows_only_old(env, count) {
            other_increments_stay_old(env, inner, count);
        }
        rewriting_keeps_the_shape(interner, inner, names, *branch, count, Symbol { bits: 0 });
        branches_keep_the_shape(interner, env, between, *rest, count, Symbol { bits: 0 });
        rewriting_differs_in_numbers(interner, inner, names, *branch, others, count, shift);
        rewritten_branches_differ_in_numbers(
            interner,
            env,
            between,
            *rest,
            other_between,
            count,
            shift,
        );
        added_names_join(others, names, between, after);
    } else {
        assert(others + names.skip(names.len() as int) =~= others);
    }
}

/// With other names in the module, a statement becomes the same but for the numbers of released
/// fields, and the same names are added, unless they are too many. If no symbol without a name was
/// bound or counted before, the numbers of the new symbols are exactly those that follow the other
/// names.
pub proof fn names_change_only_numbers<'a>(
    interner: Seq<LayoutEntry<'a>>,
    env: EnvironmentView,
    names: Seq<Seq<char>>,
    stmt: Stmt<'a>,
    others: Seq<Seq<char>>,
)
    requires
        rewritten(interner, env, names, stmt) is Some,
        are_numbered(names, (rewritten(interner, env, names, stmt)->0).names, others),
    ensures
        ({
            let after = rewritten(interner, env, names, stmt)->0;
            let other = rewritten(interner, env, others, stmt)->0;
            let shift = others.len() - names.len();
            &&& rewritten(interner, env, others, stmt) is Some
            &&& differs_in_numbers(env.home, names.len(), shift, after.stmt, other.stmt)
            &&& other.env == after.env
            &&& other.names == others + after.names.skip(names.len() as int)
            &&& is_old(env.home, names.len(), stmt) && knows_only_old(env, names.len())
                ==> other.stmt == renumbered(env.home, names.len(), shift, after.stmt)
        }),
{
    rewriting_differs_in_numbers(
        interner,
        env,
        names,
        stmt,
        others,
        names.len(),
        others.len() - names.len(),
    );
}

/// The other procedures of a module change only the numbers of the released fields of a procedure:
/// but for those it becomes what it would become alone.
pub proof fn other_procedures_change_only_numbers<'a>(
    interner: Seq<LayoutEntry<'a>>,
    home: ModuleId,
    names: Seq<Seq<char>>,
    procs: Seq<((Symbol, ProcLayout<'a>), Proc<'a>)>,
    i: int,
)
    requires
        rewritten_procs(interner, home, names, procs) is Some,
        0 <= i < procs.len(),
    ensures
        ({
            let (after, _) = rewritten_procs(interner, home, names, procs)->0;
            let (_, between) = rewritten_procs(interner, home, names, procs.take(i))->0;
            let alone = rewritten_proc(interner, EnvironmentView::empty(home), names, procs[i].1);
            let shift = names.len() - between.len();
            &&& alone is Some
            &&& differs_in_numbers(
                home,
                between.len(),
                shift,
                after[i].1.body,
                (alone->0).0.body,
            )
            &&& is_old(home, names.len(), procs[i].1.body) ==> (alone->0).0.body == renumbered(
                home,
                between.len(),
                shift,
                after[i].1.body,
            )
        }),
{
    each_procedure_is_rewritten_on_its_own(interner, home, names, procs, i);
    procedures_add_only_field_names(interner, home, names, procs.take(i));
    let (_, between) = rewritten_procs(interner, home, names, procs.take(i))->0;
    let proc = procs[i].1;
    let env = env_with_arguments(EnvironmentView::empty(home), proc.args@);
    arguments_add_only_layouts(home, proc.args@);
    if is_old(home, names.len(), proc.body) {
        old_statements_stay_old(home, names.len(), between.len(), proc.body);
    }
    rewriting_keeps_the_shape(interner, env, between, proc.body, 0, Symbol { bits: 0 });
    names_change_only_numbers(interner, env, between, proc.body, names);
}

} // verus!
