//! What becomes of the increments that a statement performs.
use crate::environment::{
    can_pop, increment_popped, increments_added, outstanding, EnvironmentView,
};
use crate::ir::{Branches, ModifyRc, Stmt};
use crate::laws::balance::{parameters_add_only_layouts, Path};
use crate::layout::{InLayout, LayoutEntry};
use crate::rewriting::{
    dec_finished, dec_prepared, env_after_binding, env_with_parameters, fields_released,
    forgets_increments, increments_popped, rewritten, rewritten_branches, DecPlan,
};
use crate::symbol::{ModuleId, Symbol};
use vstd::prelude::*;

verus! {

pub(crate) proof fn popping_adds_nothing(increments: Map<u64, u64>, symbols: Seq<u64>)
    requires
        increments_popped(increments, symbols) is Some,
    ensures
        (increments_popped(increments, symbols)->0).0.dom().subset_of(increments.dom()),
        (increments_popped(increments, symbols)->0).1.subset_of(increments.dom()),
    decreases symbols.len(),
{
    if symbols.len() > 0 {
        popping_adds_nothing(increments, symbols.drop_last());
    }
}

/// Popping takes one increment off each symbol that had one, more off a symbol that is listed more
/// than once, and adds none.
pub(crate) proof fn popping_takes_off(increments: Map<u64, u64>, symbols: Seq<u64>, symbol: u64)
    requires
        increments_popped(increments, symbols) is Some,
    ensures
        ({
            let (left, popped) = increments_popped(increments, symbols)->0;
            outstanding(left, symbol) + (if popped.contains(symbol) {
                1int
            } else {
                0int
            }) <= outstanding(increments, symbol)
        }),
    decreases symbols.len(),
{
    if symbols.len() > 0 {
        popping_takes_off(increments, symbols.drop_last(), symbol);
    }
}

/// Increments are handed on only to where they came from: after a statement, increments are
/// outstanding only of symbols of which some were before it.
pub proof fn increments_are_performed<'a>(
    interner: Seq<LayoutEntry<'a>>,
    env: EnvironmentView,
    names: Seq<Seq<char>>,
    stmt: Stmt<'a>,
)
    requires
        rewritten(interner, env, names, stmt) is Some,
    ensures
        (rewritten(interner, env, names, stmt)->0).env.incremented_symbols.dom().subset_of(
            env.incremented_symbols.dom(),
        ),
    decreases stmt,
{
    match stmt {
        Stmt::Let(binding, expr, layout, continuation) => {
            if !forgets_increments(expr) {
                increments_are_performed(
                    interner,
                    env_after_binding(env, binding, expr, layout),
                    names,
                    *continuation,
                );
            }
        },
        Stmt::Switch { .. } | Stmt::Ret(_) | Stmt::Jump(_, _) | Stmt::Crash(_, _) => {},
        Stmt::Refcounting(rc, continuation) => match rc {
            ModifyRc::Inc(symbol, count) => {
                let added = increments_added(env.incremented_symbols, symbol.bits, count);
                increments_are_performed(
                    interner,
                    env.with_increments(added),
                    names,
                    *continuation,
                );
                assert(added.dom() =~= env.incremented_symbols.dom().insert(symbol.bits));
            },
            ModifyRc::Dec(symbol) => {
                let (inner, plan, restored) = dec_prepared(interner, env, symbol)->0;
                popping_adds_nothing(env.incremented_symbols, env.children_of(symbol));
                increments_are_performed(interner, inner, names, *continuation);
                let after = rewritten(interner, inner, names, *continuation)->0;
                assert(rewritten(interner, env, names, stmt) == dec_finished(
                    interner,
                    symbol,
                    plan,
                    restored,
                    after,
                ));
            },
            ModifyRc::DecRef(_) => {
                increments_are_performed(interner, env, names, *continuation);
            },
        },
        Stmt::Expect { remainder, .. } => {
            increments_are_performed(interner, env, names, *remainder);
        },
        Stmt::ExpectFx { remainder, .. } => {
            increments_are_performed(interner, env, names, *remainder);
        },
        Stmt::Dbg { remainder, .. } => {
            increments_are_performed(interner, env, names, *remainder);
        },
        Stmt::Join { parameters, body, remainder, .. } => {
            let inside = env_with_parameters(env.without_incremented(), parameters@);
            let between = (rewritten(interner, inside, names, *body)->0).names;
            increments_are_performed(interner, env, between, *remainder);
        },
    }
}

/// Whether all increments of a statement add something.
pub open spec fn increments_add(stmt: Stmt<'_>) -> bool
    decreases stmt,
{
    match stmt {
        Stmt::Let(_, _, _, continuation) => increments_add(*continuation),
        Stmt::Switch { branches, default_branch, .. } => increments_add_in_branches(*branches)
            && increments_add(*default_branch.1),
        Stmt::Refcounting(rc, continuation) => increments_add(*continuation) && (rc matches
            ModifyRc::Inc(_, count) ==> count > 0),
        Stmt::Expect { remainder, .. } => increments_add(*remainder),
        Stmt::ExpectFx { remainder, .. } => increments_add(*remainder),
        Stmt::Dbg { remainder, .. } => increments_add(*remainder),
        Stmt::Join { body, remainder, .. } => increments_add(*body) && increments_add(*remainder),
        Stmt::Ret(_) | Stmt::Jump(_, _) | Stmt::Crash(_, _) => true,
    }
}

pub open spec fn increments_add_in_branches(branches: Branches<'_>) -> bool
    decreases branches,
{
    match branches {
        Branches::Nil => true,
        Branches::Cons { branch, rest, .. } => increments_add(*branch)
            && increments_add_in_branches(*rest),
    }
}

proof fn released_fields_add_no_increment<'a>(
    interner: Seq<LayoutEntry<'a>>,
    home: ModuleId,
    structure: Symbol,
    field_layouts: &'a [InLayout],
    symbols: Seq<Option<u64>>,
    used: Set<u64>,
    from: nat,
    stmt: Stmt<'a>,
    names: Seq<Seq<char>>,
    path: Path,
    counted: u64,
)
    requires
        fields_released(interner, home, structure, field_layouts, symbols, used, from, stmt, names)
            is Some,
    ensures
        ({
            let (released, _) = fields_released(
                interner,
                home,
                structure,
                field_layouts,
                symbols,
                used,
                from,
                stmt,
                names,
            )->0;
            &&& increments_add(stmt) ==> increments_add(released)
            &&& increments_on(released, path, counted) == increments_on(stmt, path, counted)
        }),
    decreases field_layouts@.len() - from,
{
    if from < field_layouts@.len() {
        released_fields_add_no_increment(
            interner,
            home,
            structure,
            field_layouts,
            symbols,
            used,
            from + 1,
            stmt,
            names,
            path,
            counted,
        );
        reveal_with_fuel(increments_add, 3);
        reveal_with_fuel(increments_on, 3);
    }
}

/// Every increment of a rewritten statement adds something, whatever the statement was.
pub proof fn every_increment_adds_something<'a>(
    interner: Seq<LayoutEntry<'a>>,
    env: EnvironmentView,
    names: Seq<Seq<char>>,
    stmt: Stmt<'a>,
)
    requires
        rewritten(interner, env, names, stmt) is Some,
    ensures
        increments_add((rewritten(interner, env, names, stmt)->0).stmt),
    decreases stmt,
{
    match stmt {
        Stmt::Let(binding, expr, layout, continuation) => {
            let inner = env_after_binding(env, binding, expr, layout);
            if forgets_increments(expr) {
                every_increment_adds_something(
                    interner,
                    inner.without_incremented(),
                    names,
                    *continuation,
                );
            } else {
                every_increment_adds_something(interner, inner, names, *continuation);
            }
        },
        Stmt::Switch { branches, default_branch, .. } => {
            every_increment_in_branches_adds_something(interner, env, names, *branches);
            let (_, between) = rewritten_branches(interner, env, names, *branches)->0;
            every_increment_adds_something(
                interner,
                env.without_incremented(),
                between,
                *default_branch.1,
            );
        },
        Stmt::Ret(_) | Stmt::Jump(_, _) | Stmt::Crash(_, _) => {},
        Stmt::Refcounting(rc, continuation) => match rc {
            ModifyRc::Inc(symbol, count) => {
                let added = increments_added(env.incremented_symbols, symbol.bits, count);
                every_increment_adds_something(
                    interner,
                    env.with_increments(added),
                    names,
                    *continuation,
                );
            },
            ModifyRc::Dec(symbol) => {
                let (inner, plan, restored) = dec_prepared(interner, env, symbol)->0;
                every_increment_adds_something(interner, inner, names, *continuation);
                let between = rewritten(interner, inner, names, *continuation)->0;
                assert(rewritten(interner, env, names, stmt) == dec_finished(
                    interner,
                    symbol,
                    plan,
                    restored,
                    between,
                ));
                if let DecPlan::Fields { field_layouts, symbols, used } = plan {
                    released_fields_add_no_increment(
                        interner,
                        between.env.home,
                        symbol,
                        field_layouts,
                        symbols,
                        used,
                        0,
                        between.stmt,
                        between.names,
                        Path::Stop,
                        0,
                    );
                }
            },
            ModifyRc::DecRef(_) => {
                every_increment_adds_something(interner, env, names, *continuation);
            },
        },
        Stmt::Expect { remainder, .. } => {
            every_increment_adds_something(interner, env, names, *remainder);
        },
        Stmt::ExpectFx { remainder, .. } => {
            every_increment_adds_something(interner, env, names, *remainder);
        },
        Stmt::Dbg { remainder, .. } => {
            every_increment_adds_something(interner, env, names, *remainder);
        },
        Stmt::Join { parameters, body, remainder, .. } => {
            let inside = env_with_parameters(env.without_incremented(), parameters@);
            every_increment_adds_something(interner, inside, names, *body);
            let between = (rewritten(interner, inside, names, *body)->0).names;
            every_increment_adds_something(interner, env, between, *remainder);
        },
    }
}

proof fn every_increment_in_branches_adds_something<'a>(
    interner: Seq<LayoutEntry<'a>>,
    env: EnvironmentView,
    names: Seq<Seq<char>>,
    branches: Branches<'a>,
)
    requires
        rewritten_branches(interner, env, names, branches) is Some,
    ensures
        increments_add_in_branches((rewritten_branches(interner, env, names, branches)->0).0),
    decreases branches,
{
    if let Branches::Cons { branch, rest, .. } = branches {
        let inner = env.without_incremented();
        every_increment_adds_something(interner, inner, names, *branch);
        let between = (rewritten(interner, inner, names, *branch)->0).names;
        every_increment_in_branches_adds_something(interner, env, between, *rest);
    }
}

/// How many increments of a symbol are performed on a way through a statement.
pub open spec fn increments_on(stmt: Stmt<'_>, path: Path, symbol: u64) -> nat
    decreases stmt,
{
    match stmt {
        Stmt::Let(_, expr, _, continuation) => if expr is Call || expr is Tag || expr is Struct {
            match path {
                Path::Go(_, path) => increments_on(*continuation, *path, symbol),
                _ => 0,
            }
        } else {
            increments_on(*continuation, path, symbol)
        },
        Stmt::Switch { branches, default_branch, .. } => match path {
            Path::Go(index, path) => match increments_on_branch(*branches, index, *path, symbol) {
                Some(count) => count,
                None => increments_on(*default_branch.1, *path, symbol),
            },
            _ => 0,
        },
        Stmt::Refcounting(rc, continuation) => increments_on(*continuation, path, symbol) + (
        match rc {
            ModifyRc::Inc(incremented, count) => if incremented.bits == symbol {
                count as nat
            } else {
                0nat
            },
            _ => 0nat,
        }),
        Stmt::Expect { remainder, .. } => increments_on(*remainder, path, symbol),
        Stmt::ExpectFx { remainder, .. } => increments_on(*remainder, path, symbol),
        Stmt::Dbg { remainder, .. } => increments_on(*remainder, path, symbol),
        Stmt::Join { body, remainder, .. } => match path {
            Path::Both { remainder: first, body: last } => increments_on(*remainder, *first, symbol)
                + increments_on(*body, *last, symbol),
            _ => increments_on(*remainder, path, symbol),
        },
        Stmt::Ret(_) | Stmt::Jump(_, _) | Stmt::Crash(_, _) => 0,
    }
}

/// The same for a branch of a switch, if there is one at that position.
pub open spec fn increments_on_branch(
    branches: Branches<'_>,
    index: nat,
    path: Path,
    symbol: u64,
) -> Option<nat>
    decreases branches,
{
    match branches {
        Branches::Nil => None,
        Branches::Cons { branch, rest, .. } => if index == 0 {
            Some(increments_on(*branch, path, symbol))
        } else {
            increments_on_branch(*rest, (index - 1) as nat, path, symbol)
        },
    }
}

/// On no way through a statement is a symbol incremented more often than before rewriting,
/// counting what is outstanding.
pub proof fn no_increment_is_added<'a>(
    interner: Seq<LayoutEntry<'a>>,
    env: EnvironmentView,
    names: Seq<Seq<char>>,
    stmt: Stmt<'a>,
    path: Path,
    counted: u64,
)
    requires
        rewritten(interner, env, names, stmt) is Some,
    ensures
        ({
            let after = rewritten(interner, env, names, stmt)->0;
            increments_on(after.stmt, path, counted) + outstanding(
                after.env.incremented_symbols,
                counted,
            ) <= increments_on(stmt, path, counted) + outstanding(env.incremented_symbols, counted)
        }),
    decreases stmt, 0nat,
{
    match stmt {
        Stmt::Let(binding, expr, layout, continuation) => {
            let inner = env_after_binding(env, binding, expr, layout);
            if forgets_increments(expr) {
                if let Path::Go(_, path) = path {
                    no_increment_is_added(
                        interner,
                        inner.without_incremented(),
                        names,
                        *continuation,
                        *path,
                        counted,
                    );
                }
            } else {
                no_increment_is_added(interner, inner, names, *continuation, path, counted);
            }
        },
        Stmt::Switch { branches, default_branch, .. } => {
            if let Path::Go(index, path) = path {
                let (_, between) = rewritten_branches(interner, env, names, *branches)->0;
                no_increment_is_added_in_branches(
                    interner,
                    env,
                    names,
                    *branches,
                    index,
                    *path,
                    counted,
                );
                no_increment_is_added(
                    interner,
                    env.without_incremented(),
                    between,
                    *default_branch.1,
                    *path,
                    counted,
                );
            }
        },
        Stmt::Ret(_) | Stmt::Jump(_, _) | Stmt::Crash(_, _) => {},
        Stmt::Refcounting(rc, continuation) => match rc {
            ModifyRc::Inc(symbol, count) => {
                let added = increments_added(env.incremented_symbols, symbol.bits, count);
                no_increment_is_added(
                    interner,
                    env.with_increments(added),
                    names,
                    *continuation,
                    path,
                    counted,
                );
            },
            ModifyRc::Dec(symbol) => {
                let increments = env.incremented_symbols;
                let (inner, plan, restored) = dec_prepared(interner, env, symbol)->0;
                popping_takes_off(increments, env.children_of(symbol), counted);
                no_increment_is_added(interner, inner, names, *continuation, path, counted);
                let between = rewritten(interner, inner, names, *continuation)->0;
                assert(rewritten(interner, env, names, stmt) == dec_finished(
                    interner,
                    symbol,
                    plan,
                    restored,
                    between,
                ));
                if let DecPlan::Fields { field_layouts, symbols, used } = plan {
                    released_fields_add_no_increment(
                        interner,
                        between.env.home,
                        symbol,
                        field_layouts,
                        symbols,
                        used,
                        0,
                        between.stmt,
                        between.names,
                        path,
                        counted,
                    );
                }
            },
            ModifyRc::DecRef(_) => {
                no_increment_is_added(interner, env, names, *continuation, path, counted);
            },
        },
        Stmt::Expect { remainder, .. } => {
            no_increment_is_added(interner, env, names, *remainder, path, counted);
        },
        Stmt::ExpectFx { remainder, .. } => {
            no_increment_is_added(interner, env, names, *remainder, path, counted);
        },
        Stmt::Dbg { remainder, .. } => {
            no_increment_is_added(interner, env, names, *remainder, path, counted);
        },
        Stmt::Join { parameters, body, remainder, .. } => {
            let cleared = env.without_incremented();
            let inside = env_with_parameters(cleared, parameters@);
            let between = (rewritten(interner, inside, names, *body)->0).names;
            match path {
                Path::Both { remainder: first, body: last } => {
                    parameters_add_only_layouts(cleared, parameters@);
                    no_increment_is_added(interner, inside, names, *body, *last, counted);
                    no_increment_is_added(interner, env, between, *remainder, *first, counted);
                },
                _ => {
                    no_increment_is_added(interner, env, between, *remainder, path, counted);
                },
            }
        },
    }
}

proof fn no_increment_is_added_in_branches<'a>(
    interner: Seq<LayoutEntry<'a>>,
    env: EnvironmentView,
    names: Seq<Seq<char>>,
    branches: Branches<'a>,
    index: nat,
    path: Path,
    counted: u64,
)
    requires
        rewritten_branches(interner, env, names, branches) is Some,
    ensures
        ({
            let (after, _) = rewritten_branches(interner, env, names, branches)->0;
            match increments_on_branch(branches, index, path, counted) {
                None => increments_on_branch(after, index, path, counted) is None,
                Some(count) => {
                    &&& increments_on_branch(after, index, path, counted) is Some
                    &&& increments_on_branch(after, index, path, counted)->0 <= count
                },
            }
        }),
    decreases branches, 0nat,
{
    if let Branches::Cons { branch, rest, .. } = branches {
        let inner = env.without_incremented();
        if index == 0 {
            no_increment_is_added(interner, inner, names, *branch, path, counted);
        } else {
            let between = (rewritten(interner, inner, names, *branch)->0).names;
            no_increment_is_added_in_branches(
                interner,
                env,
                between,
                *rest,
                (index - 1) as nat,
                path,
                counted,
            );
        }
    }
}

/// Taking one increment off undoes noting one more. A symbol that was incremented by zero is left
/// out: it would lose its entry.
pub proof fn popping_undoes_adding_one(increments: Map<u64, u64>, symbol: u64)
    requires
        can_pop(increments, symbol),
        outstanding(increments, symbol) < u64::MAX,
    ensures
        increment_popped(increments_added(increments, symbol, 1), symbol) == increments,
{
    assert(increment_popped(increments_added(increments, symbol, 1), symbol) =~= increments);
}

} // verus!
