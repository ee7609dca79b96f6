//! What drop specialisation makes of a statement.
//!
//! The functions here say it without memory and without machine limits: a limit that would be
//! passed, or something unknown that would be needed, gives `None`.
use crate::environment::{
    can_pop, fresh_symbol, increment_popped, increments_added, outstanding, Child,
    EnvironmentView, Index,
};
use crate::ir::{Branches, Expr, ModifyRc, Param, Proc, ProcLayout, Stmt};
use crate::layout::{InLayout, Layout, LayoutEntry};
use crate::symbol::{field_name, ModuleId, Symbol};
use vstd::prelude::*;

verus! {

/// A rewritten statement, with what is known after it and the names of the home module.
#[verifier::ext_equal]
pub struct Rewritten<'a> {
    pub stmt: Stmt<'a>,
    pub env: EnvironmentView,
    pub names: Seq<Seq<char>>,
}

impl<'a> Rewritten<'a> {
    /// The same with another statement.
    pub open spec fn with_stmt(self, stmt: Stmt<'a>) -> Rewritten<'a> {
        Rewritten { stmt, ..self }
    }

    /// The same with another environment.
    pub open spec fn with_env(self, env: EnvironmentView) -> Rewritten<'a> {
        Rewritten { env, ..self }
    }
}

/// Whether running an expression may change reference counts, so that no increment may be moved
/// past it.
pub open spec fn forgets_increments(expr: Expr<'_>) -> bool {
    expr is Call || expr is Tag || expr is Struct
}

/// What is known once a symbol is bound to an expression.
pub open spec fn env_after_binding(
    env: EnvironmentView,
    binding: Symbol,
    expr: Expr<'_>,
    layout: InLayout,
) -> EnvironmentView {
    let env = env.with_symbol_layout(binding, layout);
    match expr {
        Expr::StructAtIndex { index, structure, .. } => env.with_struct_child(
            structure,
            binding,
            index,
        ),
        Expr::UnionAtIndex { structure, tag_id, index, .. } => env.with_union_child(
            structure,
            binding,
            tag_id,
            index,
        ),
        Expr::ExprUnbox { symbol } => env.with_box_child(symbol, binding),
        _ => env,
    }
}

/// What is known inside a join point.
pub open spec fn env_with_parameters(
    env: EnvironmentView,
    parameters: Seq<Param>,
) -> EnvironmentView
    decreases parameters.len(),
{
    if parameters.len() == 0 {
        env
    } else {
        env_with_parameters(env, parameters.drop_last()).with_symbol_layout(
            parameters.last().symbol,
            parameters.last().layout,
        )
    }
}

/// What is known inside a procedure.
pub open spec fn env_with_arguments(
    env: EnvironmentView,
    args: Seq<(InLayout, Symbol)>,
) -> EnvironmentView
    decreases args.len(),
{
    if args.len() == 0 {
        env
    } else {
        env_with_arguments(env, args.drop_last()).with_symbol_layout(args.last().1, args.last().0)
    }
}

/// Takes one increment off each of some symbols, in order: the increments that are left, and the
/// symbols that had one.
pub open spec fn increments_popped(increments: Map<u64, u64>, symbols: Seq<u64>) -> Option<
    (Map<u64, u64>, Set<u64>),
>
    decreases symbols.len(),
{
    if symbols.len() == 0 {
        Some((increments, Set::empty()))
    } else {
        match increments_popped(increments, symbols.drop_last()) {
            None => None,
            Some((left, popped)) => if !can_pop(left, symbols.last()) {
                None
            } else if left.contains_key(symbols.last()) {
                Some((increment_popped(left, symbols.last()), popped.insert(symbols.last())))
            } else {
                Some((left, popped))
            },
        }
    }
}

/// Whether one more increment of each of some symbols can be noted.
pub open spec fn can_restore(increments: Map<u64, u64>, symbols: Set<u64>) -> bool {
    forall|symbol: u64| #[trigger]
        symbols.contains(symbol) ==> outstanding(increments, symbol) < u64::MAX
}

/// The increments after one more of each of some symbols.
pub open spec fn increments_restored(increments: Map<u64, u64>, symbols: Set<u64>) -> Map<
    u64,
    u64,
> {
    Map::new(
        |symbol: u64| increments.contains_key(symbol) || symbols.contains(symbol),
        |symbol: u64|
            if symbols.contains(symbol) {
                (outstanding(increments, symbol) + 1) as u64
            } else {
                increments[symbol]
            },
    )
}

/// The symbol that stands for a field of a struct, and whether an increment of it is there to be
/// used up: the first child of the field of which one is available, or else the last child of
/// the field, if it has one.
pub open spec fn child_of_field(
    children: Seq<(Child, Index)>,
    index: int,
    available: Set<u64>,
) -> (Option<u64>, bool)
    decreases children.len(),
{
    if children.len() == 0 {
        (None, false)
    } else {
        let before = child_of_field(children.drop_last(), index, available);
        if before.1 || children.last().1 != index {
            before
        } else {
            (Some(children.last().0), available.contains(children.last().0))
        }
    }
}

/// The symbols that stand for the first fields of a struct, and those of which an increment is
/// used up.
pub open spec fn children_of_fields(
    children: Seq<(Child, Index)>,
    count: nat,
    available: Set<u64>,
) -> (Seq<Option<u64>>, Set<u64>)
    decreases count,
{
    if count == 0 {
        (Seq::empty(), Set::empty())
    } else {
        let (symbols, used) = children_of_fields(children, (count - 1) as nat, available);
        let (symbol, uses) = child_of_field(children, count - 1, available.difference(used));
        (
            symbols.push(symbol),
            if uses {
                used.insert(symbol->0)
            } else {
                used
            },
        )
    }
}

/// Releases the fields of a struct from a given one on, in order, before a statement. A field
/// without reference counted values, or of which an increment was used up, needs nothing. A
/// field without a symbol is indexed first.
pub open spec fn fields_released<'a>(
    interner: Seq<LayoutEntry<'a>>,
    home: ModuleId,
    structure: Symbol,
    field_layouts: &'a [InLayout],
    symbols: Seq<Option<u64>>,
    used: Set<u64>,
    from: nat,
    stmt: Stmt<'a>,
    names: Seq<Seq<char>>,
) -> Option<(Stmt<'a>, Seq<Seq<char>>)>
    decreases field_layouts@.len() - from,
{
    if from >= field_layouts@.len() {
        Some((stmt, names))
    } else {
        match fields_released(
            interner,
            home,
            structure,
            field_layouts,
            symbols,
            used,
            from + 1,
            stmt,
            names,
        ) {
            None => None,
            Some((rest, names)) => {
                let layout = field_layouts@[from as int];
                if layout.0 >= interner.len() {
                    None
                } else if !interner[layout.0 as int].contains_refcounted {
                    Some((rest, names))
                } else {
                    match symbols[from as int] {
                        Some(bits) => if used.contains(bits) {
                            Some((rest, names))
                        } else {
                            Some((Stmt::Refcounting(ModifyRc::Dec(Symbol { bits }), &rest), names))
                        },
                        None => if names.len() > u32::MAX {
                            None
                        } else {
                            let symbol = fresh_symbol(home, names);
                            Some(
                                (
                                    field_release(
                                        symbol,
                                        from as u64,
                                        field_layouts,
                                        structure,
                                        rest,
                                    ),
                                    names.push(field_name(from)),
                                ),
                            )
                        },
                    }
                }
            },
        }
    }
}

/// Indexes a field out of a struct and decrements it, before a statement.
pub open spec fn field_release<'a>(
    symbol: Symbol,
    index: u64,
    field_layouts: &'a [InLayout],
    structure: Symbol,
    rest: Stmt<'a>,
) -> Stmt<'a> {
    Stmt::Let(
        symbol,
        Expr::StructAtIndex { index, field_layouts, structure },
        field_layouts@[index as int],
        &Stmt::Refcounting(ModifyRc::Dec(symbol), &rest),
    )
}

/// The first of some symbols that is in a set.
pub open spec fn first_in(symbols: Seq<u64>, set: Set<u64>) -> Option<u64>
    decreases symbols.len(),
{
    if symbols.len() == 0 {
        None
    } else {
        match first_in(symbols.drop_last(), set) {
            Some(symbol) => Some(symbol),
            None => if set.contains(symbols.last()) {
                Some(symbols.last())
            } else {
                None
            },
        }
    }
}

/// What to do about a decrement of a symbol.
pub enum DecPlan<'a> {
    /// An increment of the symbol was outstanding: both go.
    Cancel,
    /// The symbol is a struct with known children: its fields are released one by one.
    Fields { field_layouts: &'a [InLayout], symbols: Seq<Option<u64>>, used: Set<u64> },
    /// The symbol is a box and an increment of the child is used up: the box alone is released.
    Release { child: u64 },
    /// The decrement stays.
    Keep,
}

impl<'a> DecPlan<'a> {
    /// The children of which an increment is used up.
    pub open spec fn used(self) -> Set<u64> {
        match self {
            DecPlan::Fields { used, .. } => used,
            DecPlan::Release { child } => Set::empty().insert(child),
            _ => Set::empty(),
        }
    }
}

/// What to do about a decrement of a symbol that was not incremented, given the children that
/// were.
pub open spec fn dec_plan<'a>(
    interner: Seq<LayoutEntry<'a>>,
    env: EnvironmentView,
    symbol: Symbol,
    incremented: Set<u64>,
) -> Option<DecPlan<'a>> {
    if !env.symbol_layouts.contains_key(symbol.bits) || env.symbol_layouts[symbol.bits].0
        >= interner.len() {
        None
    } else {
        match interner[env.symbol_layouts[symbol.bits].0 as int].layout {
            Layout::Struct { field_layouts } => if env.struct_children.contains_key(symbol.bits) {
                let (symbols, used) = children_of_fields(
                    env.struct_children[symbol.bits],
                    field_layouts@.len(),
                    incremented,
                );
                Some(DecPlan::Fields { field_layouts, symbols, used })
            } else {
                Some(DecPlan::Keep)
            },
            Layout::Boxed(_) => match first_in(env.children_of(symbol), incremented) {
                Some(child) => Some(DecPlan::Release { child }),
                None => Some(DecPlan::Keep),
            },
            _ => Some(DecPlan::Keep),
        }
    }
}

/// Carries out a plan before a statement.
pub open spec fn plan_applied<'a>(
    interner: Seq<LayoutEntry<'a>>,
    home: ModuleId,
    symbol: Symbol,
    plan: DecPlan<'a>,
    stmt: Stmt<'a>,
    names: Seq<Seq<char>>,
) -> Option<(Stmt<'a>, Seq<Seq<char>>)> {
    match plan {
        DecPlan::Cancel => Some((stmt, names)),
        DecPlan::Fields { field_layouts, symbols, used } => fields_released(
            interner,
            home,
            symbol,
            field_layouts,
            symbols,
            used,
            0,
            stmt,
            names,
        ),
        DecPlan::Release { .. } => Some(
            (Stmt::Refcounting(ModifyRc::DecRef(symbol), &stmt), names),
        ),
        DecPlan::Keep => Some((Stmt::Refcounting(ModifyRc::Dec(symbol), &stmt), names)),
    }
}

/// The preparation of a decrement: the environment for its continuation, the plan, and the
/// children whose increment comes back afterwards.
pub open spec fn dec_prepared<'a>(
    interner: Seq<LayoutEntry<'a>>,
    env: EnvironmentView,
    symbol: Symbol,
) -> Option<(EnvironmentView, DecPlan<'a>, Set<u64>)> {
    match increments_popped(env.incremented_symbols, env.children_of(symbol)) {
        None => None,
        Some((left, incremented)) => if !can_pop(left, symbol.bits) {
            None
        } else if left.contains_key(symbol.bits) {
            Some(
                (
                    env.with_increments(increment_popped(left, symbol.bits)),
                    DecPlan::Cancel,
                    incremented,
                ),
            )
        } else {
            match dec_plan(interner, env, symbol, incremented) {
                None => None,
                Some(plan) => Some(
                    (env.with_increments(left), plan, incremented.difference(plan.used())),
                ),
            }
        },
    }
}

/// Puts what a decrement becomes before its rewritten continuation.
pub open spec fn dec_finished<'a>(
    interner: Seq<LayoutEntry<'a>>,
    symbol: Symbol,
    plan: DecPlan<'a>,
    restored: Set<u64>,
    continuation: Rewritten<'a>,
) -> Option<Rewritten<'a>> {
    match plan_applied(
        interner,
        continuation.env.home,
        symbol,
        plan,
        continuation.stmt,
        continuation.names,
    ) {
        None => None,
        Some((stmt, names)) => if can_restore(continuation.env.incremented_symbols, restored) {
            Some(
                Rewritten {
                    stmt,
                    env: continuation.env.with_increments(
                        increments_restored(continuation.env.incremented_symbols, restored),
                    ),
                    names,
                },
            )
        } else {
            None
        },
    }
}

/// Puts what is left of the first increment of a symbol before its rewritten continuation.
pub open spec fn inc_finished<'a>(symbol: Symbol, continuation: Rewritten<'a>) -> Rewritten<'a> {
    let count = outstanding(continuation.env.incremented_symbols, symbol.bits);
    Rewritten {
        stmt: if count == 0 {
            continuation.stmt
        } else {
            Stmt::Refcounting(ModifyRc::Inc(symbol, count as u64), &continuation.stmt)
        },
        env: continuation.env.with_increments(
            continuation.env.incremented_symbols.remove(symbol.bits),
        ),
        names: continuation.names,
    }
}

/// What a statement becomes.
pub open spec fn rewritten<'a>(
    interner: Seq<LayoutEntry<'a>>,
    env: EnvironmentView,
    names: Seq<Seq<char>>,
    stmt: Stmt<'a>,
) -> Option<Rewritten<'a>>
    decreases stmt,
{
    match stmt {
        Stmt::Let(binding, expr, layout, continuation) => {
            let env = env_after_binding(env, binding, expr, layout);
            if forgets_increments(expr) {
                match rewritten(interner, env.without_incremented(), names, *continuation) {
                    None => None,
                    Some(after) => Some(
                        after.with_stmt(Stmt::Let(binding, expr, layout, &after.stmt)).with_env(
                            env,
                        ),
                    ),
                }
            } else {
                match rewritten(interner, env, names, *continuation) {
                    None => None,
                    Some(after) => Some(
                        after.with_stmt(Stmt::Let(binding, expr, layout, &after.stmt)),
                    ),
                }
            }
        },
        Stmt::Switch { cond_symbol, cond_layout, branches, default_branch, ret_layout } => {
            match rewritten_branches(interner, env, names, *branches) {
                None => None,
                Some((branches, names)) => match rewritten(
                    interner,
                    env.without_incremented(),
                    names,
                    *default_branch.1,
                ) {
                    None => None,
                    Some(after) => Some(
                        Rewritten {
                            stmt: Stmt::Switch {
                                cond_symbol,
                                cond_layout,
                                branches: &branches,
                                default_branch: (default_branch.0, &after.stmt),
                                ret_layout,
                            },
                            env,
                            names: after.names,
                        },
                    ),
                },
            }
        },
        Stmt::Ret(_) | Stmt::Jump(_, _) | Stmt::Crash(_, _) => Some(Rewritten { stmt, env, names }),
        Stmt::Refcounting(rc, continuation) => match rc {
            ModifyRc::Inc(symbol, count) => {
                let increments = env.incremented_symbols;
                if outstanding(increments, symbol.bits) + count > u64::MAX {
                    None
                } else {
                    match rewritten(
                        interner,
                        env.with_increments(increments_added(increments, symbol.bits, count)),
                        names,
                        *continuation,
                    ) {
                        None => None,
                        Some(after) => if increments.contains_key(symbol.bits) {
                            // An increment further up performs this one too.
                            Some(after)
                        } else {
                            Some(inc_finished(symbol, after))
                        },
                    }
                }
            },
            ModifyRc::Dec(symbol) => match dec_prepared(interner, env, symbol) {
                None => None,
                Some((env, plan, restored)) => match rewritten(
                    interner,
                    env,
                    names,
                    *continuation,
                ) {
                    None => None,
                    Some(after) => dec_finished(interner, symbol, plan, restored, after),
                },
            },
            ModifyRc::DecRef(_) => match rewritten(interner, env, names, *continuation) {
                None => None,
                Some(after) => Some(after.with_stmt(Stmt::Refcounting(rc, &after.stmt))),
            },
        },
        Stmt::Expect { condition, region, lookups, variables, remainder } => {
            match rewritten(interner, env, names, *remainder) {
                None => None,
                Some(after) => Some(
                    after.with_stmt(
                        Stmt::Expect {
                            condition,
                            region,
                            lookups,
                            variables,
                            remainder: &after.stmt,
                        },
                    ),
                ),
            }
        },
        Stmt::ExpectFx { condition, region, lookups, variables, remainder } => {
            match rewritten(interner, env, names, *remainder) {
                None => None,
                Some(after) => Some(
                    after.with_stmt(
                        Stmt::ExpectFx {
                            condition,
                            region,
                            lookups,
                            variables,
                            remainder: &after.stmt,
                        },
                    ),
                ),
            }
        },
        Stmt::Dbg { symbol, variable, remainder } => {
            match rewritten(interner, env, names, *remainder) {
                None => None,
                Some(after) => Some(
                    after.with_stmt(Stmt::Dbg { symbol, variable, remainder: &after.stmt }),
                ),
            }
        },
        Stmt::Join { id, parameters, body, remainder } => {
            match rewritten(
                interner,
                env_with_parameters(env.without_incremented(), parameters@),
                names,
                *body,
            ) {
                None => None,
                Some(inside) => match rewritten(interner, env, inside.names, *remainder) {
                    None => None,
                    Some(after) => Some(
                        after.with_stmt(
                            Stmt::Join {
                                id,
                                parameters,
                                body: &inside.stmt,
                                remainder: &after.stmt,
                            },
                        ),
                    ),
                },
            }
        },
    }
}

/// What the branches of a switch become. No increment from before a switch is used in a branch.
pub open spec fn rewritten_branches<'a>(
    interner: Seq<LayoutEntry<'a>>,
    env: EnvironmentView,
    names: Seq<Seq<char>>,
    branches: Branches<'a>,
) -> Option<(Branches<'a>, Seq<Seq<char>>)>
    decreases branches,
{
    match branches {
        Branches::Nil => Some((branches, names)),
        Branches::Cons { label, info, branch, rest } => {
            match rewritten(interner, env.without_incremented(), names, *branch) {
                None => None,
                Some(first) => match rewritten_branches(interner, env, first.names, *rest) {
                    None => None,
                    Some((rest, names)) => Some(
                        (Branches::Cons { label, info, branch: &first.stmt, rest: &rest }, names),
                    ),
                },
            }
        },
    }
}

/// What a procedure becomes, with the names of the home module afterwards.
pub open spec fn rewritten_proc<'a>(
    interner: Seq<LayoutEntry<'a>>,
    env: EnvironmentView,
    names: Seq<Seq<char>>,
    proc: Proc<'a>,
) -> Option<(Proc<'a>, Seq<Seq<char>>)> {
    match rewritten(interner, env_with_arguments(env, proc.args@), names, proc.body) {
        None => None,
        Some(after) => Some((Proc { body: after.stmt, ..proc }, after.names)),
    }
}

/// Whether no two procedures have the same key.
pub open spec fn keys_are_distinct<'a>(
    procs: Seq<((Symbol, ProcLayout<'a>), Proc<'a>)>,
) -> bool {
    forall|i: int, j: int|
        0 <= i < j < procs.len() ==> (#[trigger] procs[i]).0 != (#[trigger] procs[j]).0
}

/// What the procedures of a module become, one after the other, with the names of the module
/// afterwards. Nothing that is known in one procedure is known in another.
pub open spec fn rewritten_procs<'a>(
    interner: Seq<LayoutEntry<'a>>,
    home: ModuleId,
    names: Seq<Seq<char>>,
    procs: Seq<((Symbol, ProcLayout<'a>), Proc<'a>)>,
) -> Option<(Seq<((Symbol, ProcLayout<'a>), Proc<'a>)>, Seq<Seq<char>>)>
    decreases procs.len(),
{
    if procs.len() == 0 {
        Some((procs, names))
    } else {
        match rewritten_procs(interner, home, names, procs.drop_last()) {
            None => None,
            Some((done, names)) => match rewritten_proc(
                interner,
                EnvironmentView::empty(home),
                names,
                procs.last().1,
            ) {
                None => None,
                Some((proc, names)) => Some((done.push((procs.last().0, proc)), names)),
            },
        }
    }
}

} // verus!
