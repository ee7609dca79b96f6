//! Programs that index nothing: what is left on a stretch between two calls or switches, and that
//! a second pass finds nothing to do.
use crate::environment::{increments_added, outstanding, EnvironmentView};
use crate::ir::{Branches, ModifyRc, Proc, ProcLayout, Stmt};
use crate::laws::balance::{arguments_add_only_layouts, parameters_add_only_layouts};
use crate::laws::increments::increments_are_performed;
use crate::layout::LayoutEntry;
use crate::rewriting::{
    dec_finished, dec_prepared, env_after_binding, env_with_arguments, env_with_parameters,
    first_in, forgets_increments, increments_popped, increments_restored, rewritten,
    rewritten_branches, rewritten_procs, DecPlan,
};
use crate::symbol::{ModuleId, Symbol};
use vstd::prelude::*;

verus! {

/// Whether a statement takes nothing out of a struct, a union or a box.
pub open spec fn indexes_nothing(stmt: Stmt<'_>) -> bool
    decreases stmt,
{
    match stmt {
        Stmt::Let(_, expr, _, continuation) => {
            &&& !(expr is StructAtIndex)
            &&& !(expr is UnionAtIndex)
            &&& !(expr is ExprUnbox)
            &&& indexes_nothing(*continuation)
        },
        Stmt::Switch { branches, default_branch, .. } => branches_index_nothing(*branches)
            && indexes_nothing(*default_branch.1),
        Stmt::Refcounting(_, continuation) => indexes_nothing(*continuation),
        Stmt::Expect { remainder, .. } => indexes_nothing(*remainder),
        Stmt::ExpectFx { remainder, .. } => indexes_nothing(*remainder),
        Stmt::Dbg { remainder, .. } => indexes_nothing(*remainder),
        Stmt::Join { body, remainder, .. } => indexes_nothing(*body) && indexes_nothing(
            *remainder,
        ),
        Stmt::Ret(_) | Stmt::Jump(_, _) | Stmt::Crash(_, _) => true,
    }
}

pub open spec fn branches_index_nothing(branches: Branches<'_>) -> bool
    decreases branches,
{
    match branches {
        Branches::Nil => true,
        Branches::Cons { branch, rest, .. } => indexes_nothing(*branch) && branches_index_nothing(
            *rest,
        ),
    }
}

/// Whether an environment knows no children.
pub open spec fn knows_no_children(env: EnvironmentView) -> bool {
    &&& env.struct_children == Map::<u64, Seq<(u64, u64)>>::empty()
    &&& env.union_children == Map::<u64, Seq<(u64, u16, u64)>>::empty()
    &&& env.box_children == Map::<u64, Seq<u64>>::empty()
}

/// Whether a symbol is neither incremented nor decremented on the stretch that a statement starts,
/// which ends at the first call, construction or switch. The body of a join point is no part of
/// it.
pub open spec fn is_quiet(stmt: Stmt<'_>, symbol: u64) -> bool
    decreases stmt,
{
    match stmt {
        Stmt::Let(_, expr, _, continuation) => expr is Call || expr is Tag || expr is Struct
            || is_quiet(*continuation, symbol),
        Stmt::Refcounting(rc, continuation) => {
            &&& match rc {
                ModifyRc::Inc(counted, _) => counted.bits != symbol,
                ModifyRc::Dec(counted) => counted.bits != symbol,
                ModifyRc::DecRef(_) => true,
            }
            &&& is_quiet(*continuation, symbol)
        },
        Stmt::Expect { remainder, .. } => is_quiet(*remainder, symbol),
        Stmt::ExpectFx { remainder, .. } => is_quiet(*remainder, symbol),
        Stmt::Dbg { remainder, .. } => is_quiet(*remainder, symbol),
        Stmt::Join { remainder, .. } => is_quiet(*remainder, symbol),
        Stmt::Switch { .. } | Stmt::Ret(_) | Stmt::Jump(_, _) | Stmt::Crash(_, _) => true,
    }
}

/// Whether behind each increment of a statement the symbol is quiet.
pub open spec fn is_settled(stmt: Stmt<'_>) -> bool
    decreases stmt,
{
    match stmt {
        Stmt::Let(_, _, _, continuation) => is_settled(*continuation),
        Stmt::Switch { branches, default_branch, .. } => are_settled(*branches) && is_settled(
            *default_branch.1,
        ),
        Stmt::Refcounting(rc, continuation) => {
            &&& rc matches ModifyRc::Inc(symbol, _) ==> is_quiet(*continuation, symbol.bits)
            &&& is_settled(*continuation)
        },
        Stmt::Expect { remainder, .. } => is_settled(*remainder),
        Stmt::ExpectFx { remainder, .. } => is_settled(*remainder),
        Stmt::Dbg { remainder, .. } => is_settled(*remainder),
        Stmt::Join { body, remainder, .. } => is_settled(*body) && is_settled(*remainder),
        Stmt::Ret(_) | Stmt::Jump(_, _) | Stmt::Crash(_, _) => true,
    }
}

pub open spec fn are_settled(branches: Branches<'_>) -> bool
    decreases branches,
{
    match branches {
        Branches::Nil => true,
        Branches::Cons { branch, rest, .. } => is_settled(*branch) && are_settled(*rest),
    }
}

/// Without children a decrement is cancelled if an increment of the symbol is outstanding, and
/// stays otherwise.
proof fn decrements_without_children<'a>(
    interner: Seq<LayoutEntry<'a>>,
    env: EnvironmentView,
    symbol: Symbol,
)
    requires
        knows_no_children(env),
    ensures
        increments_popped(env.incremented_symbols, env.children_of(symbol)) == Some(
            (env.incremented_symbols, Set::<u64>::empty()),
        ),
        dec_prepared(interner, env, symbol) matches Some((inner, plan, restored)) ==> {
            &&& restored == Set::<u64>::empty()
            &&& if env.incremented_symbols.contains_key(symbol.bits) {
                plan is Cancel
            } else {
                plan is Keep && inner == env
            }
        },
        forall|increments: Map<u64, u64>| #[trigger]
            increments_restored(increments, Set::empty()) == increments,
{
    assert(env.children_of(symbol) =~= Seq::empty());
    assert(env.with_increments(env.incremented_symbols) =~= env);
    assert(first_in(env.children_of(symbol), Set::empty()) is None);
    assert(Set::<u64>::empty().difference(DecPlan::<'a>::Keep.used()) =~= Set::empty());
    assert forall|increments: Map<u64, u64>| #[trigger]
        increments_restored(increments, Set::empty()) == increments by {
        assert(increments_restored(increments, Set::empty()) =~= increments);
    }
}

/// In a rewritten statement that indexes nothing, no further increment or decrement of a symbol is
/// left on a stretch behind an increment of it, nor anywhere on the stretch if increments of it
/// are still outstanding.
pub proof fn rewriting_settles<'a>(
    interner: Seq<LayoutEntry<'a>>,
    env: EnvironmentView,
    names: Seq<Seq<char>>,
    stmt: Stmt<'a>,
)
    requires
        rewritten(interner, env, names, stmt) is Some,
        knows_no_children(env),
        indexes_nothing(stmt),
    ensures
        ({
            let after = rewritten(interner, env, names, stmt)->0;
            &&& is_settled(after.stmt)
            &&& forall|symbol: u64| #[trigger]
                after.env.incremented_symbols.contains_key(symbol) ==> is_quiet(after.stmt, symbol)
        }),
    decreases stmt,
{
    let after = rewritten(interner, env, names, stmt)->0;
    match stmt {
        Stmt::Let(binding, expr, layout, continuation) => {
            let inner = env_after_binding(env, binding, expr, layout);
            if forgets_increments(expr) {
                rewriting_settles(interner, inner.without_incremented(), names, *continuation);
            } else {
                rewriting_settles(interner, inner, names, *continuation);
            }
        },
        Stmt::Switch { branches, default_branch, .. } => {
            rewriting_settles_branches(interner, env, names, *branches);
            let (_, between) = rewritten_branches(interner, env, names, *branches)->0;
            rewriting_settles(interner, env.without_incremented(), between, *default_branch.1);
        },
        Stmt::Ret(_) | Stmt::Jump(_, _) | Stmt::Crash(_, _) => {},
        Stmt::Refcounting(rc, continuation) => match rc {
            ModifyRc::Inc(symbol, count) => {
                let added = increments_added(env.incremented_symbols, symbol.bits, count);
                let inner = env.with_increments(added);
                rewriting_settles(interner, inner, names, *continuation);
                let between = rewritten(interner, inner, names, *continuation)->0;
                assert(outstanding(between.env.incremented_symbols, symbol.bits) > 0
                    ==> between.env.incremented_symbols.contains_key(symbol.bits));
                assert forall|s: u64| #[trigger]
                    after.env.incremented_symbols.contains_key(s) implies is_quiet(
                    after.stmt,
                    s,
                ) by {
                    assert(between.env.incremented_symbols.contains_key(s));
                }
            },
            ModifyRc::Dec(symbol) => {
                decrements_without_children(interner, env, symbol);
                let (inner, plan, restored) = dec_prepared(interner, env, symbol)->0;
                rewriting_settles(interner, inner, names, *continuation);
                increments_are_performed(interner, inner, names, *continuation);
                let between = rewritten(interner, inner, names, *continuation)->0;
                assert(Some(after) == dec_finished(interner, symbol, plan, restored, between));
                assert forall|s: u64| #[trigger]
                    after.env.incremented_symbols.contains_key(s) implies is_quiet(
                    after.stmt,
                    s,
                ) by {
                    assert(between.env.incremented_symbols.contains_key(s));
                    assert(inner.incremented_symbols.contains_key(s));
                }
            },
            ModifyRc::DecRef(_) => {
                rewriting_settles(interner, env, names, *continuation);
            },
        },
        Stmt::Expect { remainder, .. } => {
            rewriting_settles(interner, env, names, *remainder);
        },
        Stmt::ExpectFx { remainder, .. } => {
            rewriting_settles(interner, env, names, *remainder);
        },
        Stmt::Dbg { remainder, .. } => {
            rewriting_settles(interner, env, names, *remainder);
        },
        Stmt::Join { parameters, body, remainder, .. } => {
            let cleared = env.without_incremented();
            let inside = env_with_parameters(cleared, parameters@);
            parameters_add_only_layouts(cleared, parameters@);
            rewriting_settles(interner, inside, names, *body);
            let between = (rewritten(interner, inside, names, *body)->0).names;
            rewriting_settles(interner, env, between, *remainder);
        },
    }
}

proof fn rewriting_settles_branches<'a>(
    interner: Seq<LayoutEntry<'a>>,
    env: EnvironmentView,
    names: Seq<Seq<char>>,
    branches: Branches<'a>,
)
    requires
        rewritten_branches(interner, env, names, branches) is Some,
        knows_no_children(env),
        branches_index_nothing(branches),
    ensures
        are_settled((rewritten_branches(interner, env, names, branches)->0).0),
    decreases branches,
{
    if let Branches::Cons { branch, rest, .. } = branches {
        let inner = env.without_incremented();
        rewriting_settles(interner, inner, names, *branch);
        let between = (rewritten(interner, inner, names, *branch)->0).names;
        rewriting_settles_branches(interner, env, between, *rest);
    }
}

/// A second pass over a rewritten statement, with other increments outstanding of which no symbol
/// is counted on the stretch.
proof fn a_second_pass_finds_nothing<'a>(
    interner: Seq<LayoutEntry<'a>>,
    env: EnvironmentView,
    names: Seq<Seq<char>>,
    stmt: Stmt<'a>,
    other: EnvironmentView,
    other_names: Seq<Seq<char>>,
)
    requires
        rewritten(interner, env, names, stmt) is Some,
        knows_no_children(env),
        indexes_nothing(stmt),
        knows_no_children(other),
        other.symbol_layouts == env.symbol_layouts,
        forall|symbol: u64| #[trigger]
            other.incremented_symbols.contains_key(symbol) ==> is_quiet(
                (rewritten(interner, env, names, stmt)->0).stmt,
                symbol,
            ),
    ensures
        ({
            let once = (rewritten(interner, env, names, stmt)->0).stmt;
            let twice = rewritten(interner, other, other_names, once);
            &&& twice is Some
            &&& (twice->0).stmt == once
            &&& (twice->0).names == other_names
            &&& (twice->0).env.incremented_symbols == other.incremented_symbols
        }),
    decreases stmt,
{
    let after = rewritten(interner, env, names, stmt)->0;
    match stmt {
        Stmt::Let(binding, expr, layout, continuation) => {
            let inner = env_after_binding(env, binding, expr, layout);
            let other_inner = env_after_binding(other, binding, expr, layout);
            if forgets_increments(expr) {
                a_second_pass_finds_nothing(
                    interner,
                    inner.without_incremented(),
                    names,
                    *continuation,
                    other_inner.without_incremented(),
                    other_names,
                );
            } else {
                let between = rewritten(interner, inner, names, *continuation)->0;
                assert forall|s: u64| #[trigger]
                    other_inner.incremented_symbols.contains_key(s) implies is_quiet(
                    between.stmt,
                    s,
                ) by {
                    assert(is_quiet(after.stmt, s));
                }
                a_second_pass_finds_nothing(
                    interner,
                    inner,
                    names,
                    *continuation,
                    other_inner,
                    other_names,
                );
            }
        },
        Stmt::Switch { branches, default_branch, .. } => {
            let (_, between) = rewritten_branches(interner, env, names, *branches)->0;
            a_second_pass_finds_nothing_in_branches(
                interner,
                env,
                names,
                *branches,
                other,
                other_names,
            );
            a_second_pass_finds_nothing(
                interner,
                env.without_incremented(),
                between,
                *default_branch.1,
                other.without_incremented(),
                other_names,
            );
        },
        Stmt::Ret(_) | Stmt::Jump(_, _) | Stmt::Crash(_, _) => {},
        Stmt::Refcounting(rc, continuation) => match rc {
            ModifyRc::Inc(symbol, count) => {
                let added = increments_added(env.incremented_symbols, symbol.bits, count);
                let inner = env.with_increments(added);
                let between = rewritten(interner, inner, names, *continuation)->0;
                let left = outstanding(between.env.incremented_symbols, symbol.bits);
                if env.incremented_symbols.contains_key(symbol.bits) || left == 0 {
                    a_second_pass_finds_nothing(
                        interner,
                        inner,
                        names,
                        *continuation,
                        other,
                        other_names,
                    );
                } else {
                    assert(after.stmt == Stmt::Refcounting(
                        ModifyRc::Inc(symbol, left as u64),
                        &between.stmt,
                    ));
                    if other.incremented_symbols.contains_key(symbol.bits) {
                        assert(!is_quiet(after.stmt, symbol.bits));
                    }
                    rewriting_settles(interner, inner, names, *continuation);
                    assert(between.env.incremented_symbols.contains_key(symbol.bits));
                    let other_added = increments_added(
                        other.incremented_symbols,
                        symbol.bits,
                        left as u64,
                    );
                    let other_inner = other.with_increments(other_added);
                    assert forall|s: u64| #[trigger]
                        other_inner.incremented_symbols.contains_key(s) implies is_quiet(
                        between.stmt,
                        s,
                    ) by {
                        if s != symbol.bits {
                            assert(other.incremented_symbols.contains_key(s));
                            assert(is_quiet(after.stmt, s));
                        }
                    }
                    a_second_pass_finds_nothing(
                        interner,
                        inner,
                        names,
                        *continuation,
                        other_inner,
                        other_names,
                    );
                    assert(other_added.remove(symbol.bits) =~= other.incremented_symbols);
                }
            },
            ModifyRc::Dec(symbol) => {
                decrements_without_children(interner, env, symbol);
                let (inner, plan, restored) = dec_prepared(interner, env, symbol)->0;
                let between = rewritten(interner, inner, names, *continuation)->0;
                assert(Some(after) == dec_finished(interner, symbol, plan, restored, between));
                if plan is Keep {
                    assert(after.stmt == Stmt::Refcounting(rc, &between.stmt));
                    if other.incremented_symbols.contains_key(symbol.bits) {
                        assert(!is_quiet(after.stmt, symbol.bits));
                    }
                    assert forall|s: u64| #[trigger]
                        other.incremented_symbols.contains_key(s) implies is_quiet(
                        between.stmt,
                        s,
                    ) by {
                        assert(is_quiet(after.stmt, s));
                    }
                }
                a_second_pass_finds_nothing(
                    interner,
                    inner,
                    names,
                    *continuation,
                    other,
                    other_names,
                );
                if plan is Keep {
                    decrements_without_children(interner, other, symbol);
                    assert(dec_prepared(interner, other, symbol) is Some);
                    let (other_inner, other_plan, other_restored) = dec_prepared(
                        interner,
                        other,
                        symbol,
                    )->0;
                    let twice = rewritten(interner, other, other_names, between.stmt)->0;
                    assert(rewritten(interner, other, other_names, after.stmt) == dec_finished(
                        interner,
                        symbol,
                        other_plan,
                        other_restored,
                        twice,
                    ));
                }
            },
            ModifyRc::DecRef(_) => {
                let between = rewritten(interner, env, names, *continuation)->0;
                assert forall|s: u64| #[trigger]
                    other.incremented_symbols.contains_key(s) implies is_quiet(between.stmt, s) by {
                    assert(is_quiet(after.stmt, s));
                }
                a_second_pass_finds_nothing(
                    interner,
                    env,
                    names,
                    *continuation,
                    other,
                    other_names,
                );
            },
        },
        Stmt::Expect { remainder, .. } => {
            let between = rewritten(interner, env, names, *remainder)->0;
            assert forall|s: u64| #[trigger]
                other.incremented_symbols.contains_key(s) implies is_quiet(between.stmt, s) by {
                assert(is_quiet(after.stmt, s));
            }
            a_second_pass_finds_nothing(interner, env, names, *remainder, other, other_names);
        },
        Stmt::ExpectFx { remainder, .. } => {
            let between = rewritten(interner, env, names, *remainder)->0;
            assert forall|s: u64| #[trigger]
                other.incremented_symbols.contains_key(s) implies is_quiet(between.stmt, s) by {
                assert(is_quiet(after.stmt, s));
            }
            a_second_pass_finds_nothing(interner, env, names, *remainder, other, other_names);
        },
        Stmt::Dbg { remainder, .. } => {
            let between = rewritten(interner, env, names, *remainder)->0;
            assert forall|s: u64| #[trigger]
                other.incremented_symbols.contains_key(s) implies is_quiet(between.stmt, s) by {
                assert(is_quiet(after.stmt, s));
            }
            a_second_pass_finds_nothing(interner, env, names, *remainder, other, other_names);
        },
        Stmt::Join { parameters, body, remainder, .. } => {
            let cleared = env.without_incremented();
            let inside = env_with_parameters(cleared, parameters@);
            let other_cleared = other.without_incremented();
            let other_inside = env_with_parameters(other_cleared, parameters@);
            parameters_add_only_layouts(cleared, parameters@);
            parameters_add_only_layouts(other_cleared, parameters@);
            a_second_pass_finds_nothing(
                interner,
                inside,
                names,
                *body,
                other_inside,
                other_names,
            );
            let middle = (rewritten(interner, inside, names, *body)->0).names;
            let between = rewritten(interner, env, middle, *remainder)->0;
            assert forall|s: u64| #[trigger]
                other.incremented_symbols.contains_key(s) implies is_quiet(between.stmt, s) by {
                assert(is_quiet(after.stmt, s));
            }
            a_second_pass_finds_nothing(interner, env, middle, *remainder, other, other_names);
        },
    }
}

proof fn a_second_pass_finds_nothing_in_branches<'a>(
    interner: Seq<LayoutEntry<'a>>,
    env: EnvironmentView,
    names: Seq<Seq<char>>,
    branches: Branches<'a>,
    other: EnvironmentView,
    other_names: Seq<Seq<char>>,
)
    requires
        rewritten_branches(interner, env, names, branches) is Some,
        knows_no_children(env),
        branches_index_nothing(branches),
        knows_no_children(other),
        other.symbol_layouts == env.symbol_layouts,
    ensures
        ({
            let once = (rewritten_branches(interner, env, names, branches)->0).0;
            rewritten_branches(interner, other, other_names, once) == Some((once, other_names))
        }),
    decreases branches,
{
    if let Branches::Cons { branch, rest, .. } = branches {
        let inner = env.without_incremented();
        a_second_pass_finds_nothing(
            interner,
            inner,
            names,
            *branch,
            other.without_incremented(),
            other_names,
        );
        let between = (rewritten(interner, inner, names, *branch)->0).names;
        a_second_pass_finds_nothing_in_branches(
            interner,
            env,
            between,
            *rest,
            other,
            other_names,
        );
    }
}

/// Without indexing, the pass applied twice gives what it gives once.
pub proof fn two_passes_are_one<'a>(
    interner: Seq<LayoutEntry<'a>>,
    env: EnvironmentView,
    names: Seq<Seq<char>>,
    stmt: Stmt<'a>,
)
    requires
        rewritten(interner, env, names, stmt) is Some,
        knows_no_children(env),
        indexes_nothing(stmt),
        env.incremented_symbols == Map::<u64, u64>::empty(),
    ensures
        ({
            let once = rewritten(interner, env, names, stmt)->0;
            let twice = rewritten(interner, env, once.names, once.stmt);
            &&& twice is Some
            &&& (twice->0).stmt == once.stmt
            &&& (twice->0).names == once.names
        }),
{
    let once = rewritten(interner, env, names, stmt)->0;
    a_second_pass_finds_nothing(interner, env, names, stmt, env, once.names);
}

proof fn a_second_pass_over_procedures_finds_nothing<'a>(
    interner: Seq<LayoutEntry<'a>>,
    home: ModuleId,
    names: Seq<Seq<char>>,
    procs: Seq<((Symbol, ProcLayout<'a>), Proc<'a>)>,
    other_names: Seq<Seq<char>>,
)
    requires
        rewritten_procs(interner, home, names, procs) is Some,
        forall|i: int| 0 <= i < procs.len() ==> indexes_nothing((#[trigger] procs[i]).1.body),
    ensures
        ({
            let (once, _) = rewritten_procs(interner, home, names, procs)->0;
            rewritten_procs(interner, home, other_names, once) == Some((once, other_names))
        }),
    decreases procs.len(),
{
    if procs.len() > 0 {
        let others = procs.drop_last();
        assert forall|i: int| 0 <= i < others.len() implies indexes_nothing(
            (#[trigger] others[i]).1.body,
        ) by {
            assert(others[i] == procs[i]);
        }
        a_second_pass_over_procedures_finds_nothing(interner, home, names, others, other_names);
        let (done, between) = rewritten_procs(interner, home, names, others)->0;
        let (once, _) = rewritten_procs(interner, home, names, procs)->0;
        assert(once.drop_last() =~= done);
        let proc = procs[procs.len() - 1].1;
        let env = env_with_arguments(EnvironmentView::empty(home), proc.args@);
        arguments_add_only_layouts(home, proc.args@);
        a_second_pass_finds_nothing(interner, env, between, proc.body, env, other_names);
        assert(done.push(once.last()) =~= once);
    }
}

/// For procedures that index nothing, the pass applied twice gives what it gives once.
pub proof fn two_passes_over_a_program_are_one<'a>(
    interner: Seq<LayoutEntry<'a>>,
    home: ModuleId,
    names: Seq<Seq<char>>,
    procs: Seq<((Symbol, ProcLayout<'a>), Proc<'a>)>,
)
    requires
        rewritten_procs(interner, home, names, procs) is Some,
        forall|i: int| 0 <= i < procs.len() ==> indexes_nothing((#[trigger] procs[i]).1.body),
    ensures
        ({
            let (once, after) = rewritten_procs(interner, home, names, procs)->0;
            rewritten_procs(interner, home, after, once) == Some((once, after))
        }),
{
    let (_, after) = rewritten_procs(interner, home, names, procs)->0;
    a_second_pass_over_procedures_finds_nothing(interner, home, names, procs, after);
}

} // verus!
