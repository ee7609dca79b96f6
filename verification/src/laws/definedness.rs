//! Drop specialisation succeeds on every program that decrements only symbols in scope, as long
//! as no count and no number of names grows too large.
use crate::environment::{increments_added, outstanding, EnvironmentView};
use crate::ir::{Branches, ModifyRc, Proc, ProcLayout, Stmt};
use crate::laws::balance::{
    arguments_add_only_layouts, layout_of, parameters_add_only_layouts, scope_of_arguments,
    scope_with_parameters,
};
use crate::laws::increments::popping_takes_off;
use crate::layout::{InLayout, Layout, LayoutEntry};
use crate::rewriting::{
    dec_finished, dec_prepared, env_after_binding, env_with_arguments, env_with_parameters,
    fields_released, forgets_increments, increments_popped, rewritten, rewritten_branches,
    rewritten_procs, DecPlan,
};
use crate::symbol::{ModuleId, Symbol};
use vstd::prelude::*;

verus! {

/// Whether a symbol can be decremented: its layout is known, and if it is a struct, so are those of
/// its fields.
pub open spec fn can_be_decremented(
    interner: Seq<LayoutEntry<'_>>,
    scope: Map<u64, InLayout>,
    symbol: Symbol,
) -> bool {
    match layout_of(interner, scope, symbol.bits) {
        None => false,
        Some(Layout::Struct { field_layouts }) => forall|j: int|
            0 <= j < field_layouts@.len() ==> (#[trigger] field_layouts@[j]).0 < interner.len(),
        Some(_) => true,
    }
}

/// Whether a statement decrements only symbols in scope, of known layout, and increments by at
/// least one.
pub open spec fn is_ready(
    interner: Seq<LayoutEntry<'_>>,
    scope: Map<u64, InLayout>,
    stmt: Stmt<'_>,
) -> bool
    decreases stmt,
{
    match stmt {
        Stmt::Let(binding, _, layout, continuation) => is_ready(
            interner,
            scope.insert(binding.bits, layout),
            *continuation,
        ),
        Stmt::Switch { branches, default_branch, .. } => are_ready(interner, scope, *branches)
            && is_ready(interner, scope, *default_branch.1),
        Stmt::Refcounting(rc, continuation) => {
            &&& match rc {
                ModifyRc::Inc(_, count) => count > 0,
                ModifyRc::Dec(symbol) => can_be_decremented(interner, scope, symbol),
                ModifyRc::DecRef(_) => true,
            }
            &&& is_ready(interner, scope, *continuation)
        },
        Stmt::Expect { remainder, .. } => is_ready(interner, scope, *remainder),
        Stmt::ExpectFx { remainder, .. } => is_ready(interner, scope, *remainder),
        Stmt::Dbg { remainder, .. } => is_ready(interner, scope, *remainder),
        Stmt::Join { parameters, body, remainder, .. } => {
            &&& is_ready(interner, scope_with_parameters(scope, parameters@), *body)
            &&& is_ready(interner, scope, *remainder)
        },
        Stmt::Ret(_) | Stmt::Jump(_, _) | Stmt::Crash(_, _) => true,
    }
}

pub open spec fn are_ready(
    interner: Seq<LayoutEntry<'_>>,
    scope: Map<u64, InLayout>,
    branches: Branches<'_>,
) -> bool
    decreases branches,
{
    match branches {
        Branches::Nil => true,
        Branches::Cons { branch, rest, .. } => is_ready(interner, scope, *branch) && are_ready(
            interner,
            scope,
            *rest,
        ),
    }
}

/// The sum of all increments of a symbol in a statement.
pub open spec fn increments_of(stmt: Stmt<'_>, symbol: u64) -> nat
    decreases stmt,
{
    match stmt {
        Stmt::Let(_, _, _, continuation) => increments_of(*continuation, symbol),
        Stmt::Switch { branches, default_branch, .. } => increments_of_branches(*branches, symbol)
            + increments_of(*default_branch.1, symbol),
        Stmt::Refcounting(rc, continuation) => increments_of(*continuation, symbol) + (match rc {
            ModifyRc::Inc(incremented, count) => if incremented.bits == symbol {
                count as nat
            } else {
                0nat
            },
            _ => 0nat,
        }),
        Stmt::Expect { remainder, .. } => increments_of(*remainder, symbol),
        Stmt::ExpectFx { remainder, .. } => increments_of(*remainder, symbol),
        Stmt::Dbg { remainder, .. } => increments_of(*remainder, symbol),
        Stmt::Join { body, remainder, .. } => increments_of(*body, symbol) + increments_of(
            *remainder,
            symbol,
        ),
        Stmt::Ret(_) | Stmt::Jump(_, _) | Stmt::Crash(_, _) => 0,
    }
}

pub open spec fn increments_of_branches(branches: Branches<'_>, symbol: u64) -> nat
    decreases branches,
{
    match branches {
        Branches::Nil => 0,
        Branches::Cons { branch, rest, .. } => increments_of(*branch, symbol)
            + increments_of_branches(*rest, symbol),
    }
}

/// Whether the increments of each symbol in a statement, with those that are outstanding, fit a
/// count.
pub open spec fn counts_fit(increments: Map<u64, u64>, stmt: Stmt<'_>) -> bool {
    forall|symbol: u64|
        outstanding(increments, symbol) + #[trigger] increments_of(stmt, symbol) <= u64::MAX
}

/// How many of the fields from a given one on are, or contain, reference counted values.
pub open spec fn counted_fields(
    interner: Seq<LayoutEntry<'_>>,
    field_layouts: Seq<InLayout>,
    from: nat,
) -> nat
    decreases field_layouts.len() - from,
{
    if from >= field_layouts.len() {
        0
    } else {
        let layout = field_layouts[from as int];
        counted_fields(interner, field_layouts, from + 1) + (
        if interner[layout.0 as int].contains_refcounted {
            1nat
        } else {
            0nat
        })
    }
}

/// How many names a decrement of a symbol may need: one for each field of a struct that is to be
/// decremented.
pub open spec fn names_needed_by_decrement(
    interner: Seq<LayoutEntry<'_>>,
    scope: Map<u64, InLayout>,
    symbol: Symbol,
) -> nat {
    match layout_of(interner, scope, symbol.bits) {
        Some(Layout::Struct { field_layouts }) => counted_fields(interner, field_layouts@, 0),
        _ => 0,
    }
}

/// How many names a statement may need: those of its decrements.
pub open spec fn names_needed(
    interner: Seq<LayoutEntry<'_>>,
    scope: Map<u64, InLayout>,
    stmt: Stmt<'_>,
) -> nat
    decreases stmt,
{
    match stmt {
        Stmt::Let(binding, _, layout, continuation) => names_needed(
            interner,
            scope.insert(binding.bits, layout),
            *continuation,
        ),
        Stmt::Switch { branches, default_branch, .. } => names_needed_by_branches(
            interner,
            scope,
            *branches,
        ) + names_needed(interner, scope, *default_branch.1),
        Stmt::Refcounting(rc, continuation) => names_needed(interner, scope, *continuation) + (
        match rc {
            ModifyRc::Dec(symbol) => names_needed_by_decrement(interner, scope, symbol),
            _ => 0nat,
        }),
        Stmt::Expect { remainder, .. } => names_needed(interner, scope, *remainder),
        Stmt::ExpectFx { remainder, .. } => names_needed(interner, scope, *remainder),
        Stmt::Dbg { remainder, .. } => names_needed(interner, scope, *remainder),
        Stmt::Join { parameters, body, remainder, .. } => names_needed(
            interner,
            scope_with_parameters(scope, parameters@),
            *body,
        ) + names_needed(interner, scope, *remainder),
        Stmt::Ret(_) | Stmt::Jump(_, _) | Stmt::Crash(_, _) => 0,
    }
}

pub open spec fn names_needed_by_branches(
    interner: Seq<LayoutEntry<'_>>,
    scope: Map<u64, InLayout>,
    branches: Branches<'_>,
) -> nat
    decreases branches,
{
    match branches {
        Branches::Nil => 0,
        Branches::Cons { branch, rest, .. } => names_needed(interner, scope, *branch)
            + names_needed_by_branches(interner, scope, *rest),
    }
}

/// Whether there are numbers for some more names.
pub open spec fn names_fit(names: Seq<Seq<char>>, needed: nat) -> bool {
    needed > 0 ==> names.len() + needed <= u32::MAX + 1
}

/// Whether no outstanding increment is by zero.
pub open spec fn are_positive(increments: Map<u64, u64>) -> bool {
    forall|symbol: u64| #[trigger] increments.contains_key(symbol) ==> increments[symbol] > 0
}

proof fn popping_positive_increments(increments: Map<u64, u64>, symbols: Seq<u64>)
    requires
        are_positive(increments),
    ensures
        increments_popped(increments, symbols) is Some,
        are_positive((increments_popped(increments, symbols)->0).0),
    decreases symbols.len(),
{
    if symbols.len() > 0 {
        popping_positive_increments(increments, symbols.drop_last());
    }
}

proof fn releasing_is_defined<'a>(
    interner: Seq<LayoutEntry<'a>>,
    home: ModuleId,
    structure: Symbol,
    field_layouts: &'a [InLayout],
    symbols: Seq<Option<u64>>,
    used: Set<u64>,
    from: nat,
    stmt: Stmt<'a>,
    names: Seq<Seq<char>>,
)
    requires
        forall|j: int|
            0 <= j < field_layouts@.len() ==> (#[trigger] field_layouts@[j]).0 < interner.len(),
        from <= field_layouts@.len(),
        names_fit(names, counted_fields(interner, field_layouts@, from)),
    ensures
        fields_released(interner, home, structure, field_layouts, symbols, used, from, stmt, names)
            is Some,
        (fields_released(
            interner,
            home,
            structure,
            field_layouts,
            symbols,
            used,
            from,
            stmt,
            names,
        )->0).1.len() <= names.len() + counted_fields(interner, field_layouts@, from),
    decreases field_layouts@.len() - from,
{
    if from < field_layouts@.len() {
        releasing_is_defined(
            interner,
            home,
            structure,
            field_layouts,
            symbols,
            used,
            from + 1,
            stmt,
            names,
        );
    }
}

/// The increments fit for a part of a statement if they do for the whole.
proof fn counts_fit_a_part(
    increments: Map<u64, u64>,
    stmt: Stmt<'_>,
    other: Map<u64, u64>,
    part: Stmt<'_>,
)
    requires
        counts_fit(increments, stmt),
        forall|symbol: u64|
            outstanding(other, symbol) + #[trigger] increments_of(part, symbol) <= outstanding(
                increments,
                symbol,
            ) + increments_of(stmt, symbol),
    ensures
        counts_fit(other, part),
{
    assert forall|symbol: u64|
        outstanding(other, symbol) + #[trigger] increments_of(part, symbol) <= u64::MAX by {
        assert(outstanding(increments, symbol) + increments_of(stmt, symbol) <= u64::MAX);
    }
}

/// A statement is rewritten if it decrements only symbols in scope and increments by at least
/// one, unless the increments of a symbol add up to too much or too many names are needed. No
/// increment and no more names come out of it than went into it.
pub proof fn ready_statements_are_rewritten<'a>(
    interner: Seq<LayoutEntry<'a>>,
    env: EnvironmentView,
    names: Seq<Seq<char>>,
    stmt: Stmt<'a>,
)
    requires
        are_positive(env.incremented_symbols),
        is_ready(interner, env.symbol_layouts, stmt),
        counts_fit(env.incremented_symbols, stmt),
        names_fit(names, names_needed(interner, env.symbol_layouts, stmt)),
    ensures
        rewritten(interner, env, names, stmt) is Some,
        ({
            let after = rewritten(interner, env, names, stmt)->0;
            &&& are_positive(after.env.incremented_symbols)
            &&& forall|symbol: u64|
                outstanding(after.env.incremented_symbols, symbol) <= outstanding(
                    env.incremented_symbols,
                    symbol,
                ) + #[trigger] increments_of(stmt, symbol)
            &&& after.names.len() <= names.len() + names_needed(
                interner,
                env.symbol_layouts,
                stmt,
            )
        }),
    decreases stmt, 0nat,
{
    let increments = env.incremented_symbols;
    let none = Map::<u64, u64>::empty();
    match stmt {
        Stmt::Let(binding, expr, layout, continuation) => {
            let inner = env_after_binding(env, binding, expr, layout);
            if forgets_increments(expr) {
                counts_fit_a_part(increments, stmt, none, *continuation);
                ready_statements_are_rewritten(
                    interner,
                    inner.without_incremented(),
                    names,
                    *continuation,
                );
            } else {
                counts_fit_a_part(increments, stmt, increments, *continuation);
                ready_statements_are_rewritten(interner, inner, names, *continuation);
            }
        },
        Stmt::Switch { branches, default_branch, .. } => {
            assert forall|symbol: u64| #[trigger]
                increments_of_branches(*branches, symbol) <= u64::MAX by {
                assert(outstanding(increments, symbol) + increments_of(stmt, symbol) <= u64::MAX);
            }
            ready_branches_are_rewritten(interner, env, names, *branches);
            let (_, between) = rewritten_branches(interner, env, names, *branches)->0;
            counts_fit_a_part(increments, stmt, none, *default_branch.1);
            ready_statements_are_rewritten(
                interner,
                env.without_incremented(),
                between,
                *default_branch.1,
            );
        },
        Stmt::Ret(_) | Stmt::Jump(_, _) | Stmt::Crash(_, _) => {},
        Stmt::Refcounting(rc, continuation) => match rc {
            ModifyRc::Inc(symbol, count) => {
                let added = increments_added(increments, symbol.bits, count);
                assert(outstanding(increments, symbol.bits) + increments_of(stmt, symbol.bits)
                    <= u64::MAX);
                counts_fit_a_part(increments, stmt, added, *continuation);
                let inner = env.with_increments(added);
                ready_statements_are_rewritten(interner, inner, names, *continuation);
            },
            ModifyRc::Dec(symbol) => {
                counts_fit_a_part(increments, stmt, increments, *continuation);
                ready_decrements_are_rewritten(
                    interner,
                    env,
                    names,
                    symbol,
                    continuation,
                );
            },
            ModifyRc::DecRef(_) => {
                counts_fit_a_part(increments, stmt, increments, *continuation);
                ready_statements_are_rewritten(interner, env, names, *continuation);
            },
        },
        Stmt::Expect { remainder, .. } => {
            counts_fit_a_part(increments, stmt, increments, *remainder);
            ready_statements_are_rewritten(interner, env, names, *remainder);
        },
        Stmt::ExpectFx { remainder, .. } => {
            counts_fit_a_part(increments, stmt, increments, *remainder);
            ready_statements_are_rewritten(interner, env, names, *remainder);
        },
        Stmt::Dbg { remainder, .. } => {
            counts_fit_a_part(increments, stmt, increments, *remainder);
            ready_statements_are_rewritten(interner, env, names, *remainder);
        },
        Stmt::Join { parameters, body, remainder, .. } => {
            let cleared = env.without_incremented();
            let inside = env_with_parameters(cleared, parameters@);
            parameters_add_only_layouts(cleared, parameters@);
            counts_fit_a_part(increments, stmt, none, *body);
            ready_statements_are_rewritten(interner, inside, names, *body);
            let between = (rewritten(interner, inside, names, *body)->0).names;
            counts_fit_a_part(increments, stmt, increments, *remainder);
            ready_statements_are_rewritten(interner, env, between, *remainder);
        },
    }
    let after = rewritten(interner, env, names, stmt)->0;
    assert forall|symbol: u64|
        outstanding(after.env.incremented_symbols, symbol) <= outstanding(increments, symbol)
            + #[trigger] increments_of(stmt, symbol) by {
        let part = match stmt {
            Stmt::Let(_, _, _, continuation) => *continuation,
            Stmt::Refcounting(_, continuation) => *continuation,
            Stmt::Expect { remainder, .. } => *remainder,
            Stmt::ExpectFx { remainder, .. } => *remainder,
            Stmt::Dbg { remainder, .. } => *remainder,
            Stmt::Join { remainder, .. } => *remainder,
            _ => stmt,
        };
        assert(increments_of(part, symbol) <= increments_of(stmt, symbol));
    }
}

proof fn ready_decrements_are_rewritten<'a>(
    interner: Seq<LayoutEntry<'a>>,
    env: EnvironmentView,
    names: Seq<Seq<char>>,
    symbol: Symbol,
    continuation: &'a Stmt<'a>,
)
    requires
        are_positive(env.incremented_symbols),
        can_be_decremented(interner, env.symbol_layouts, symbol),
        is_ready(interner, env.symbol_layouts, *continuation),
        counts_fit(env.incremented_symbols, *continuation),
        names_fit(
            names,
            names_needed(interner, env.symbol_layouts, *continuation) + names_needed_by_decrement(
                interner,
                env.symbol_layouts,
                symbol,
            ),
        ),
    ensures
        ({
            let stmt = Stmt::Refcounting(ModifyRc::Dec(symbol), continuation);
            let after = rewritten(interner, env, names, stmt)->0;
            &&& rewritten(interner, env, names, stmt) is Some
            &&& are_positive(after.env.incremented_symbols)
            &&& forall|s: u64|
                outstanding(after.env.incremented_symbols, s) <= outstanding(
                    env.incremented_symbols,
                    s,
                ) + #[trigger] increments_of(*continuation, s)
            &&& after.names.len() <= names.len() + names_needed(
                interner,
                env.symbol_layouts,
                *continuation,
            ) + names_needed_by_decrement(interner, env.symbol_layouts, symbol)
        }),
    decreases *continuation, 1nat,
{
    let stmt = Stmt::Refcounting(ModifyRc::Dec(symbol), continuation);
    let increments = env.incremented_symbols;
    let children = env.children_of(symbol);
    popping_positive_increments(increments, children);
    let (left, incremented) = increments_popped(increments, children)->0;
    let (inner, plan, restored) = dec_prepared(interner, env, symbol)->0;
    assert(dec_prepared(interner, env, symbol) is Some);
    assert forall|s: u64|
        outstanding(inner.incremented_symbols, s) + (if incremented.contains(s) {
            1int
        } else {
            0int
        }) <= #[trigger] outstanding(increments, s) by {
        popping_takes_off(increments, children, s);
    }
    assert forall|s: u64|
        outstanding(inner.incremented_symbols, s) + #[trigger] increments_of(*continuation, s)
            <= outstanding(increments, s) + increments_of(*continuation, s) by {
        assert(outstanding(increments, s) >= 0);
    }
    counts_fit_a_part(increments, *continuation, inner.incremented_symbols, *continuation);
    ready_statements_are_rewritten(interner, inner, names, *continuation);
    let between = rewritten(interner, inner, names, *continuation)->0;
    if let DecPlan::Fields { field_layouts, symbols, used } = plan {
        releasing_is_defined(
            interner,
            between.env.home,
            symbol,
            field_layouts,
            symbols,
            used,
            0,
            between.stmt,
            between.names,
        );
    }
    let kept = between.env.incremented_symbols;
    assert forall|s: u64|
        outstanding(kept, s) + (if incremented.contains(s) {
            1int
        } else {
            0int
        }) <= outstanding(increments, s) + #[trigger] increments_of(*continuation, s) by {
        assert(outstanding(increments, s) >= 0);
    }
    assert forall|s: u64| #[trigger] restored.contains(s) implies outstanding(kept, s)
        < u64::MAX by {
        assert(incremented.contains(s));
        assert(outstanding(increments, s) + increments_of(*continuation, s) <= u64::MAX);
    }
    assert(rewritten(interner, env, names, stmt) == dec_finished(
        interner,
        symbol,
        plan,
        restored,
        between,
    ));
    let after = rewritten(interner, env, names, stmt)->0;
    assert forall|s: u64|
        outstanding(after.env.incremented_symbols, s) <= outstanding(increments, s)
            + #[trigger] increments_of(*continuation, s) by {
        if restored.contains(s) {
            assert(incremented.contains(s));
        }
    }
}

proof fn ready_branches_are_rewritten<'a>(
    interner: Seq<LayoutEntry<'a>>,
    env: EnvironmentView,
    names: Seq<Seq<char>>,
    branches: Branches<'a>,
)
    requires
        are_ready(interner, env.symbol_layouts, branches),
        forall|symbol: u64| #[trigger] increments_of_branches(branches, symbol) <= u64::MAX,
        names_fit(names, names_needed_by_branches(interner, env.symbol_layouts, branches)),
    ensures
        rewritten_branches(interner, env, names, branches) is Some,
        (rewritten_branches(interner, env, names, branches)->0).1.len() <= names.len()
            + names_needed_by_branches(interner, env.symbol_layouts, branches),
    decreases branches, 0nat,
{
    if let Branches::Cons { branch, rest, .. } = branches {
        let inner = env.without_incremented();
        assert forall|symbol: u64|
            outstanding(inner.incremented_symbols, symbol) + #[trigger] increments_of(
                *branch,
                symbol,
            ) <= u64::MAX by {
            assert(increments_of_branches(branches, symbol) <= u64::MAX);
        }
        ready_statements_are_rewritten(interner, inner, names, *branch);
        let between = (rewritten(interner, inner, names, *branch)->0).names;
        assert forall|symbol: u64| #[trigger]
            increments_of_branches(*rest, symbol) <= u64::MAX by {
            assert(increments_of_branches(branches, symbol) <= u64::MAX);
        }
        ready_branches_are_rewritten(interner, env, between, *rest);
    }
}

/// Whether a procedure decrements only its arguments and what is bound in it, and the increments
/// of no symbol add up to too much.
pub open spec fn is_ready_proc(interner: Seq<LayoutEntry<'_>>, proc: Proc<'_>) -> bool {
    &&& is_ready(interner, scope_of_arguments(proc.args@), proc.body)
    &&& forall|symbol: u64| #[trigger] increments_of(proc.body, symbol) <= u64::MAX
}

/// How many names some procedures may need together.
pub open spec fn names_needed_by_procs<'a>(
    interner: Seq<LayoutEntry<'a>>,
    procs: Seq<((Symbol, ProcLayout<'a>), Proc<'a>)>,
) -> nat
    decreases procs.len(),
{
    if procs.len() == 0 {
        0
    } else {
        names_needed_by_procs(interner, procs.drop_last()) + names_needed(
            interner,
            scope_of_arguments(procs.last().1.args@),
            procs.last().1.body,
        )
    }
}

/// The procedures of a module are rewritten if each decrements only symbols in scope and
/// increments by at least one, unless the increments of a symbol in one add up to too much or too
/// many names are needed.
pub proof fn ready_programs_are_rewritten<'a>(
    interner: Seq<LayoutEntry<'a>>,
    home: ModuleId,
    names: Seq<Seq<char>>,
    procs: Seq<((Symbol, ProcLayout<'a>), Proc<'a>)>,
)
    requires
        forall|i: int| 0 <= i < procs.len() ==> is_ready_proc(interner, (#[trigger] procs[i]).1),
        names_fit(names, names_needed_by_procs(interner, procs)),
    ensures
        rewritten_procs(interner, home, names, procs) is Some,
        (rewritten_procs(interner, home, names, procs)->0).1.len() <= names.len()
            + names_needed_by_procs(interner, procs),
    decreases procs.len(),
{
    if procs.len() > 0 {
        let others = procs.drop_last();
        assert forall|i: int| 0 <= i < others.len() implies is_ready_proc(
            interner,
            (#[trigger] others[i]).1,
        ) by {
            assert(others[i] == procs[i]);
        }
        ready_programs_are_rewritten(interner, home, names, others);
        let (_, between) = rewritten_procs(interner, home, names, others)->0;
        let proc = procs[procs.len() - 1].1;
        let env = env_with_arguments(EnvironmentView::empty(home), proc.args@);
        arguments_add_only_layouts(home, proc.args@);
        assert(counts_fit(env.incremented_symbols, proc.body));
        ready_statements_are_rewritten(interner, env, between, proc.body);
    }
}

} // verus!
