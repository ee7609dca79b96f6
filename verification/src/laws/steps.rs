//! How rewriting a statement relates to rewriting what follows it.
//!
//! Of each statement these laws say in what surroundings its continuation is rewritten and what is
//! outstanding afterwards, by the parts of the statement and of the environment alone.
use crate::environment::EnvironmentView;
use crate::ir::{Branches, Expr, ModifyRc, Stmt};
use crate::laws::balance::{parameters_add_only_layouts, scope_with_parameters};
use crate::layout::{InLayout, LayoutEntry};
use crate::rewriting::{env_after_binding, rewritten, rewritten_branches, Rewritten};
use crate::symbol::Symbol;
use vstd::prelude::*;

verus! {

/// How often a symbol still has to be incremented.
pub open spec fn left_of(increments: Map<u64, u64>, symbol: u64) -> int {
    if increments.contains_key(symbol) {
        increments[symbol] as int
    } else {
        0
    }
}

/// What is known once a symbol is bound: its layout and, if it was taken out of another symbol,
/// that it is the last one so far that was.
pub open spec fn bound(
    env: EnvironmentView,
    binding: Symbol,
    expr: Expr<'_>,
    layout: InLayout,
) -> EnvironmentView {
    EnvironmentView {
        symbol_layouts: env.symbol_layouts.insert(binding.bits, layout),
        struct_children: match expr {
            Expr::StructAtIndex { index, structure, .. } => env.struct_children.insert(
                structure.bits,
                (if env.struct_children.contains_key(structure.bits) {
                    env.struct_children[structure.bits]
                } else {
                    Seq::empty()
                }).push((binding.bits, index)),
            ),
            _ => env.struct_children,
        },
        union_children: match expr {
            Expr::UnionAtIndex { structure, tag_id, index, .. } => env.union_children.insert(
                structure.bits,
                (if env.union_children.contains_key(structure.bits) {
                    env.union_children[structure.bits]
                } else {
                    Seq::empty()
                }).push((binding.bits, tag_id, index)),
            ),
            _ => env.union_children,
        },
        box_children: match expr {
            Expr::ExprUnbox { symbol } => env.box_children.insert(
                symbol.bits,
                (if env.box_children.contains_key(symbol.bits) {
                    env.box_children[symbol.bits]
                } else {
                    Seq::empty()
                }).push(binding.bits),
            ),
            _ => env.box_children,
        },
        ..env
    }
}

/// Two environments that differ at most in what is outstanding.
pub open spec fn differ_in_increments(env: EnvironmentView, other: EnvironmentView) -> bool {
    &&& other.home == env.home
    &&& other.symbol_layouts == env.symbol_layouts
    &&& other.struct_children == env.struct_children
    &&& other.union_children == env.union_children
    &&& other.box_children == env.box_children
}

/// What stands behind a call of any kind or a construction becomes the same whatever is outstanding
/// before it, namely what it becomes with nothing outstanding, and what is outstanding stays so. So
/// no increment before it is cancelled by a decrement behind it.
pub proof fn calls_and_constructions_hide_increments<'a>(
    interner: Seq<LayoutEntry<'a>>,
    env: EnvironmentView,
    other: EnvironmentView,
    names: Seq<Seq<char>>,
    binding: Symbol,
    expr: Expr<'a>,
    layout: InLayout,
    continuation: &'a Stmt<'a>,
)
    requires
        expr is Call || expr is Tag || expr is Struct,
        differ_in_increments(env, other),
    ensures
        ({
            let stmt = Stmt::Let(binding, expr, layout, continuation);
            let inside = EnvironmentView {
                symbol_layouts: env.symbol_layouts.insert(binding.bits, layout),
                incremented_symbols: Map::empty(),
                ..env
            };
            match rewritten(interner, env, names, stmt) {
                None => {
                    &&& rewritten(interner, inside, names, *continuation) is None
                    &&& rewritten(interner, other, names, stmt) is None
                },
                Some(after) => {
                    let alone = rewritten(interner, inside, names, *continuation);
                    let again = rewritten(interner, other, names, stmt);
                    &&& alone is Some
                    &&& after.stmt == Stmt::Let(binding, expr, layout, &(alone->0).stmt)
                    &&& after.names == (alone->0).names
                    &&& after.env == (EnvironmentView {
                        symbol_layouts: env.symbol_layouts.insert(binding.bits, layout),
                        ..env
                    })
                    &&& again is Some
                    &&& (again->0).stmt == after.stmt
                    &&& (again->0).names == after.names
                    &&& (again->0).env.incremented_symbols == other.incremented_symbols
                },
            }
        }),
{
    let inside = EnvironmentView {
        symbol_layouts: env.symbol_layouts.insert(binding.bits, layout),
        incremented_symbols: Map::empty(),
        ..env
    };
    assert(env_after_binding(env, binding, expr, layout).without_incremented()
        =~= inside);
    assert(env_after_binding(other, binding, expr, layout).without_incremented()
        =~= inside);
}

/// Any other binding lets all increments through: its continuation is rewritten with the same
/// increments outstanding, and with the binding known.
pub proof fn other_bindings_let_increments_through<'a>(
    interner: Seq<LayoutEntry<'a>>,
    env: EnvironmentView,
    names: Seq<Seq<char>>,
    binding: Symbol,
    expr: Expr<'a>,
    layout: InLayout,
    continuation: &'a Stmt<'a>,
)
    requires
        !(expr is Call || expr is Tag || expr is Struct),
    ensures
        rewritten(interner, env, names, Stmt::Let(binding, expr, layout, continuation)) == (
        match rewritten(interner, bound(env, binding, expr, layout), names, *continuation) {
            None => None,
            Some(after) => Some(
                Rewritten { stmt: Stmt::Let(binding, expr, layout, &after.stmt), ..after },
            ),
        }),
{
    assert(env_after_binding(env, binding, expr, layout) =~= bound(
        env,
        binding,
        expr,
        layout,
    ));
}

/// Expectations, debug output and releases of a symbol alone stay, and let all increments through.
pub proof fn other_statements_let_increments_through<'a>(
    interner: Seq<LayoutEntry<'a>>,
    env: EnvironmentView,
    names: Seq<Seq<char>>,
    stmt: Stmt<'a>,
)
    ensures
        match stmt {
            Stmt::Expect { condition, region, lookups, variables, remainder } => rewritten(
                interner,
                env,
                names,
                stmt,
            ) == (match rewritten(interner, env, names, *remainder) {
                None => None,
                Some(after) => Some(
                    Rewritten {
                        stmt: Stmt::Expect {
                            condition,
                            region,
                            lookups,
                            variables,
                            remainder: &after.stmt,
                        },
                        ..after
                    },
                ),
            }),
            Stmt::ExpectFx { condition, region, lookups, variables, remainder } => rewritten(
                interner,
                env,
                names,
                stmt,
            ) == (match rewritten(interner, env, names, *remainder) {
                None => None,
                Some(after) => Some(
                    Rewritten {
                        stmt: Stmt::ExpectFx {
                            condition,
                            region,
                            lookups,
                            variables,
                            remainder: &after.stmt,
                        },
                        ..after
                    },
                ),
            }),
            Stmt::Dbg { symbol, variable, remainder } => rewritten(interner, env, names, stmt) == (
            match rewritten(interner, env, names, *remainder) {
                None => None,
                Some(after) => Some(
                    Rewritten {
                        stmt: Stmt::Dbg { symbol, variable, remainder: &after.stmt },
                        ..after
                    },
                ),
            }),
            Stmt::Refcounting(ModifyRc::DecRef(symbol), continuation) => rewritten(
                interner,
                env,
                names,
                stmt,
            ) == (match rewritten(interner, env, names, *continuation) {
                None => None,
                Some(after) => Some(
                    Rewritten {
                        stmt: Stmt::Refcounting(ModifyRc::DecRef(symbol), &after.stmt),
                        ..after
                    },
                ),
            }),
            Stmt::Ret(_) | Stmt::Jump(_, _) | Stmt::Crash(_, _) => rewritten(
                interner,
                env,
                names,
                stmt,
            ) == Some(Rewritten { stmt, env, names }),
            _ => true,
        },
{
}

/// Whether the branches of a switch become others, each rewritten with nothing outstanding, with
/// the names that those before it added.
pub open spec fn branches_become<'a>(
    interner: Seq<LayoutEntry<'a>>,
    env: EnvironmentView,
    names: Seq<Seq<char>>,
    before: Branches<'a>,
    after: Branches<'a>,
    last_names: Seq<Seq<char>>,
) -> bool
    decreases before,
{
    match before {
        Branches::Nil => after is Nil && last_names == names,
        Branches::Cons { label, info, branch, rest } => {
            let alone = EnvironmentView { incremented_symbols: Map::empty(), ..env };
            &&& after matches Branches::Cons {
                label: after_label,
                info: after_info,
                branch: after_branch,
                rest: after_rest,
            }
            &&& after_label == label
            &&& after_info == info
            &&& rewritten(interner, alone, names, *branch) matches Some(first)
            &&& *after_branch == first.stmt
            &&& branches_become(interner, env, first.names, *rest, *after_rest, last_names)
        },
    }
}

proof fn branches_are_rewritten_alone<'a>(
    interner: Seq<LayoutEntry<'a>>,
    env: EnvironmentView,
    names: Seq<Seq<char>>,
    branches: Branches<'a>,
)
    requires
        rewritten_branches(interner, env, names, branches) is Some,
    ensures
        ({
            let (after, last_names) = rewritten_branches(interner, env, names, branches)->0;
            branches_become(interner, env, names, branches, after, last_names)
        }),
    decreases branches,
{
    if let Branches::Cons { branch, rest, .. } = branches {
        let alone = EnvironmentView { incremented_symbols: Map::empty(), ..env };
        assert(env.without_incremented() =~= alone);
        let first = rewritten(interner, alone, names, *branch)->0;
        branches_are_rewritten_alone(interner, env, first.names, *rest);
    }
}

/// Each branch of a switch is rewritten with nothing outstanding and with all else that is known,
/// and what is known and outstanding before the switch is so after it.
pub proof fn switches_hide_increments<'a>(
    interner: Seq<LayoutEntry<'a>>,
    env: EnvironmentView,
    names: Seq<Seq<char>>,
    stmt: Stmt<'a>,
)
    requires
        stmt is Switch,
        rewritten(interner, env, names, stmt) is Some,
    ensures
        ({
            let after = rewritten(interner, env, names, stmt)->0;
            let alone = EnvironmentView { incremented_symbols: Map::empty(), ..env };
            &&& after.env == env
            &&& after.stmt is Switch
            &&& after.stmt->cond_symbol == stmt->cond_symbol
            &&& after.stmt->cond_layout == stmt->cond_layout
            &&& after.stmt->ret_layout == stmt->ret_layout
            &&& after.stmt->default_branch.0 == stmt->default_branch.0
            &&& exists|between: Seq<Seq<char>>|
                {
                    &&& #[trigger] branches_become(
                        interner,
                        env,
                        names,
                        *stmt->branches,
                        *after.stmt->branches,
                        between,
                    )
                    &&& rewritten(interner, alone, between, *stmt->default_branch.1) matches Some(
                        last,
                    )
                    &&& *after.stmt->default_branch.1 == last.stmt
                    &&& after.names == last.names
                }
        }),
{
    let alone = EnvironmentView { incremented_symbols: Map::empty(), ..env };
    assert(env.without_incremented() =~= alone);
    let branches = stmt->branches;
    let (_, between) = rewritten_branches(interner, env, names, *branches)->0;
    branches_are_rewritten_alone(interner, env, names, *branches);
    let after = rewritten(interner, env, names, stmt)->0;
    assert(branches_become(
        interner,
        env,
        names,
        *stmt->branches,
        *after.stmt->branches,
        between,
    ));
}

/// The body of a join point is rewritten with nothing outstanding, with its parameters and all else
/// that is known. Its remainder is rewritten with all that is known and outstanding before it.
pub proof fn join_points_hide_increments_from_their_bodies<'a>(
    interner: Seq<LayoutEntry<'a>>,
    env: EnvironmentView,
    names: Seq<Seq<char>>,
    stmt: Stmt<'a>,
)
    requires
        stmt is Join,
    ensures
        ({
            let inside = EnvironmentView {
                symbol_layouts: scope_with_parameters(env.symbol_layouts, stmt->parameters@),
                incremented_symbols: Map::empty(),
                ..env
            };
            match rewritten(interner, inside, names, *stmt->body) {
                None => rewritten(interner, env, names, stmt) is None,
                Some(body) => rewritten(interner, env, names, stmt) == (match rewritten(
                    interner,
                    env,
                    body.names,
                    *stmt->Join_remainder,
                ) {
                    None => None,
                    Some(after) => Some(
                        Rewritten {
                            stmt: Stmt::Join {
                                id: stmt->id,
                                parameters: stmt->parameters,
                                body: &body.stmt,
                                remainder: &after.stmt,
                            },
                            ..after
                        },
                    ),
                }),
            }
        }),
{
    let parameters = stmt->parameters;
    parameters_add_only_layouts(env.without_incremented(), parameters@);
}

/// Behind an increment of a symbol that much more of it is outstanding. If some was outstanding
/// before, the increment itself goes, as the first one performs them all. Otherwise it stays, by
/// what the continuation leaves of it, and goes if that is nothing.
pub proof fn the_first_increment_performs_all<'a>(
    interner: Seq<LayoutEntry<'a>>,
    env: EnvironmentView,
    names: Seq<Seq<char>>,
    symbol: Symbol,
    count: u64,
    continuation: &'a Stmt<'a>,
)
    ensures
        ({
            let stmt = Stmt::Refcounting(ModifyRc::Inc(symbol, count), continuation);
            let sum = left_of(env.incremented_symbols, symbol.bits) + count;
            let inside = EnvironmentView {
                incremented_symbols: env.incremented_symbols.insert(symbol.bits, sum as u64),
                ..env
            };
            if sum > u64::MAX {
                rewritten(interner, env, names, stmt) is None
            } else {
                match rewritten(interner, inside, names, *continuation) {
                    None => rewritten(interner, env, names, stmt) is None,
                    Some(after) => {
                        let left = left_of(after.env.incremented_symbols, symbol.bits);
                        if env.incremented_symbols.contains_key(symbol.bits) {
                            rewritten(interner, env, names, stmt) == Some(after)
                        } else {
                            rewritten(interner, env, names, stmt) == Some(
                                Rewritten {
                                    stmt: if left == 0 {
                                        after.stmt
                                    } else {
                                        Stmt::Refcounting(
                                            ModifyRc::Inc(symbol, left as u64),
                                            &after.stmt,
                                        )
                                    },
                                    env: EnvironmentView {
                                        incremented_symbols: after.env.incremented_symbols.remove(
                                            symbol.bits,
                                        ),
                                        ..after.env
                                    },
                                    names: after.names,
                                },
                            )
                        }
                    },
                }
            }
        }),
{
}

} // verus!
