//! Rewriting mentions no symbol where it is not in scope, and leaves statements without reference
//! counting alone.
use crate::environment::{fresh_symbol, increments_added, EnvironmentView};
use crate::ir::{Branches, Expr, ModifyRc, Param, Stmt};
use crate::laws::balance::{
    counted, parameters_add_only_layouts, scope_with_parameters, symbols_of_fields_are_children,
};
use crate::layout::{InLayout, LayoutEntry};
use crate::rewriting::{
    dec_finished, dec_prepared, env_after_binding, env_with_parameters, fields_released,
    forgets_increments, increments_popped, rewritten, rewritten_branches, DecPlan,
};
use crate::symbol::{ModuleId, Symbol};
use vstd::prelude::*;

verus! {

/// Whether a statement counts only symbols that are in scope, and indexes and unboxes only such
/// symbols.
pub open spec fn stays_in_scope(scope: Map<u64, InLayout>, stmt: Stmt<'_>) -> bool
    decreases stmt,
{
    match stmt {
        Stmt::Let(binding, expr, layout, continuation) => {
            &&& match expr {
                Expr::StructAtIndex { structure, .. } => scope.contains_key(structure.bits),
                Expr::UnionAtIndex { structure, .. } => scope.contains_key(structure.bits),
                Expr::ExprUnbox { symbol } => scope.contains_key(symbol.bits),
                _ => true,
            }
            &&& stays_in_scope(scope.insert(binding.bits, layout), *continuation)
        },
        Stmt::Switch { branches, default_branch, .. } => branches_stay_in_scope(scope, *branches)
            && stays_in_scope(scope, *default_branch.1),
        Stmt::Refcounting(rc, continuation) => {
            &&& scope.contains_key(counted(rc).bits)
            &&& stays_in_scope(scope, *continuation)
        },
        Stmt::Expect { remainder, .. } => stays_in_scope(scope, *remainder),
        Stmt::ExpectFx { remainder, .. } => stays_in_scope(scope, *remainder),
        Stmt::Dbg { remainder, .. } => stays_in_scope(scope, *remainder),
        Stmt::Join { parameters, body, remainder, .. } => stays_in_scope(
            scope_with_parameters(scope, parameters@),
            *body,
        ) && stays_in_scope(scope, *remainder),
        Stmt::Ret(_) | Stmt::Jump(_, _) | Stmt::Crash(_, _) => true,
    }
}

pub open spec fn branches_stay_in_scope(scope: Map<u64, InLayout>, branches: Branches<'_>) -> bool
    decreases branches,
{
    match branches {
        Branches::Nil => true,
        Branches::Cons { branch, rest, .. } => stays_in_scope(scope, *branch)
            && branches_stay_in_scope(scope, *rest),
    }
}

/// Whether all struct children that an environment knows are in scope.
pub open spec fn knows_scope(env: EnvironmentView, scope: Map<u64, InLayout>) -> bool {
    forall|parent: Symbol, i: int|
        0 <= i < env.struct_children_of(parent).len() ==> scope.contains_key(
            (#[trigger] env.struct_children_of(parent)[i]).0,
        )
}

proof fn more_parameters(
    scope: Map<u64, InLayout>,
    wider: Map<u64, InLayout>,
    parameters: Seq<Param>,
)
    requires
        scope.dom().subset_of(wider.dom()),
    ensures
        scope_with_parameters(scope, parameters).dom().subset_of(
            scope_with_parameters(wider, parameters).dom(),
        ),
        scope.dom().subset_of(scope_with_parameters(scope, parameters).dom()),
    decreases parameters.len(),
{
    if parameters.len() > 0 {
        more_parameters(scope, wider, parameters.drop_last());
    }
}

proof fn a_wider_scope_is_no_harm(
    scope: Map<u64, InLayout>,
    wider: Map<u64, InLayout>,
    stmt: Stmt<'_>,
)
    requires
        scope.dom().subset_of(wider.dom()),
        stays_in_scope(scope, stmt),
    ensures
        stays_in_scope(wider, stmt),
    decreases stmt,
{
    match stmt {
        Stmt::Let(binding, _, layout, continuation) => {
            a_wider_scope_is_no_harm(
                scope.insert(binding.bits, layout),
                wider.insert(binding.bits, layout),
                *continuation,
            );
        },
        Stmt::Switch { branches, default_branch, .. } => {
            a_wider_scope_is_no_harm_to_branches(scope, wider, *branches);
            a_wider_scope_is_no_harm(scope, wider, *default_branch.1);
        },
        Stmt::Refcounting(_, continuation) => {
            a_wider_scope_is_no_harm(scope, wider, *continuation);
        },
        Stmt::Expect { remainder, .. } => {
            a_wider_scope_is_no_harm(scope, wider, *remainder);
        },
        Stmt::ExpectFx { remainder, .. } => {
            a_wider_scope_is_no_harm(scope, wider, *remainder);
        },
        Stmt::Dbg { remainder, .. } => {
            a_wider_scope_is_no_harm(scope, wider, *remainder);
        },
        Stmt::Join { parameters, body, remainder, .. } => {
            more_parameters(scope, wider, parameters@);
            a_wider_scope_is_no_harm(
                scope_with_parameters(scope, parameters@),
                scope_with_parameters(wider, parameters@),
                *body,
            );
            a_wider_scope_is_no_harm(scope, wider, *remainder);
        },
        Stmt::Ret(_) | Stmt::Jump(_, _) | Stmt::Crash(_, _) => {},
    }
}

proof fn a_wider_scope_is_no_harm_to_branches(
    scope: Map<u64, InLayout>,
    wider: Map<u64, InLayout>,
    branches: Branches<'_>,
)
    requires
        scope.dom().subset_of(wider.dom()),
        branches_stay_in_scope(scope, branches),
    ensures
        branches_stay_in_scope(wider, branches),
    decreases branches,
{
    if let Branches::Cons { branch, rest, .. } = branches {
        a_wider_scope_is_no_harm(scope, wider, *branch);
        a_wider_scope_is_no_harm_to_branches(scope, wider, *rest);
    }
}

proof fn released_fields_stay_in_scope<'a>(
    scope: Map<u64, InLayout>,
    interner: Seq<LayoutEntry<'a>>,
    home: ModuleId,
    structure: Symbol,
    field_layouts: &'a [InLayout],
    symbols: Seq<Option<u64>>,
    used: Set<u64>,
    from: nat,
    stmt: Stmt<'a>,
    names: Seq<Seq<char>>,
)
    requires
        fields_released(interner, home, structure, field_layouts, symbols, used, from, stmt, names)
            is Some,
        stays_in_scope(scope, stmt),
        scope.contains_key(structure.bits),
        forall|i: int|
            from <= i < field_layouts@.len() && (#[trigger] symbols[i]) is Some
                ==> scope.contains_key(symbols[i]->0),
    ensures
        stays_in_scope(
            scope,
            (fields_released(
                interner,
                home,
                structure,
                field_layouts,
                symbols,
                used,
                from,
                stmt,
                names,
            )->0).0,
        ),
    decreases field_layouts@.len() - from,
{
    if from < field_layouts@.len() {
        released_fields_stay_in_scope(
            scope,
            interner,
            home,
            structure,
            field_layouts,
            symbols,
            used,
            from + 1,
            stmt,
            names,
        );
        let (rest, between) = fields_released(
            interner,
            home,
            structure,
            field_layouts,
            symbols,
            used,
            from + 1,
            stmt,
            names,
        )->0;
        let symbol = fresh_symbol(home, between);
        let layout = field_layouts@[(from as u64) as int];
        a_wider_scope_is_no_harm(scope, scope.insert(symbol.bits, layout), rest);
        assert(symbols[from as int] is Some ==> scope.contains_key(symbols[from as int]->0));
        reveal_with_fuel(stays_in_scope, 3);
    }
}

proof fn bindings_are_known(
    env: EnvironmentView,
    scope: Map<u64, InLayout>,
    binding: Symbol,
    expr: Expr<'_>,
    layout: InLayout,
)
    requires
        knows_scope(env, scope),
    ensures
        knows_scope(
            env_after_binding(env, binding, expr, layout),
            scope.insert(binding.bits, layout),
        ),
{
    let after = env_after_binding(env, binding, expr, layout);
    assert forall|parent: Symbol, i: int|
        0 <= i < after.struct_children_of(parent).len() implies scope.insert(
        binding.bits,
        layout,
    ).contains_key((#[trigger] after.struct_children_of(parent)[i]).0) by {
        let before = env.struct_children_of(parent);
        if i < before.len() {
            assert(after.struct_children_of(parent)[i] == before[i]);
        }
    }
}

proof fn other_knowledge_is_no_harm(
    env: EnvironmentView,
    other: EnvironmentView,
    scope: Map<u64, InLayout>,
    wider: Map<u64, InLayout>,
)
    requires
        knows_scope(env, scope),
        scope.dom().subset_of(wider.dom()),
        other.struct_children == env.struct_children,
    ensures
        knows_scope(other, wider),
{
    assert forall|parent: Symbol, i: int|
        0 <= i < other.struct_children_of(parent).len() implies wider.contains_key(
        (#[trigger] other.struct_children_of(parent)[i]).0,
    ) by {
        assert(other.struct_children_of(parent)[i] == env.struct_children_of(parent)[i]);
    }
}

/// A rewritten statement counts, indexes and unboxes only symbols that are in scope, if the
/// statement did.
pub proof fn rewriting_stays_in_scope<'a>(
    scope: Map<u64, InLayout>,
    interner: Seq<LayoutEntry<'a>>,
    env: EnvironmentView,
    names: Seq<Seq<char>>,
    stmt: Stmt<'a>,
)
    requires
        rewritten(interner, env, names, stmt) is Some,
        knows_scope(env, scope),
        stays_in_scope(scope, stmt),
    ensures
        stays_in_scope(scope, (rewritten(interner, env, names, stmt)->0).stmt),
    decreases stmt,
{
    match stmt {
        Stmt::Let(binding, expr, layout, continuation) => {
            let inner = env_after_binding(env, binding, expr, layout);
            let inside = scope.insert(binding.bits, layout);
            bindings_are_known(env, scope, binding, expr, layout);
            if forgets_increments(expr) {
                let cleared = inner.without_incremented();
                other_knowledge_is_no_harm(inner, cleared, inside, inside);
                rewriting_stays_in_scope(inside, interner, cleared, names, *continuation);
            } else {
                rewriting_stays_in_scope(inside, interner, inner, names, *continuation);
            }
        },
        Stmt::Switch { branches, default_branch, .. } => {
            let cleared = env.without_incremented();
            other_knowledge_is_no_harm(env, cleared, scope, scope);
            rewritten_branches_stay_in_scope(scope, interner, env, names, *branches);
            let (_, between) = rewritten_branches(interner, env, names, *branches)->0;
            rewriting_stays_in_scope(scope, interner, cleared, between, *default_branch.1);
        },
        Stmt::Ret(_) | Stmt::Jump(_, _) | Stmt::Crash(_, _) => {},
        Stmt::Refcounting(rc, continuation) => match rc {
            ModifyRc::Inc(symbol, count) => {
                let inner = env.with_increments(
                    increments_added(env.incremented_symbols, symbol.bits, count),
                );
                other_knowledge_is_no_harm(env, inner, scope, scope);
                rewriting_stays_in_scope(scope, interner, inner, names, *continuation);
            },
            ModifyRc::Dec(symbol) => {
                let (inner, plan, restored) = dec_prepared(interner, env, symbol)->0;
                other_knowledge_is_no_harm(env, inner, scope, scope);
                rewriting_stays_in_scope(scope, interner, inner, names, *continuation);
                let between = rewritten(interner, inner, names, *continuation)->0;
                assert(rewritten(interner, env, names, stmt) == dec_finished(
                    interner,
                    symbol,
                    plan,
                    restored,
                    between,
                ));
                if let DecPlan::Fields { field_layouts, symbols, used } = plan {
                    let (_, incremented) = increments_popped(
                        env.incremented_symbols,
                        env.children_of(symbol),
                    )->0;
                    let children = env.struct_children_of(symbol);
                    symbols_of_fields_are_children(children, field_layouts@.len(), incremented);
                    assert forall|i: int|
                        0 <= i < field_layouts@.len() && (
                        #[trigger] symbols[i]) is Some implies scope.contains_key(
                        symbols[i]->0,
                    ) by {
                        let p = choose|p: int|
                            0 <= p < children.len() && #[trigger] children[p].0 == symbols[i]->0
                                && children[p].1 == i;
                        assert(scope.contains_key(env.struct_children_of(symbol)[p].0));
                    }
                    released_fields_stay_in_scope(
                        scope,
                        interner,
                        between.env.home,
                        symbol,
                        field_layouts,
                        symbols,
                        used,
                        0,
                        between.stmt,
                        between.names,
                    );
                }
            },
            ModifyRc::DecRef(_) => {
                rewriting_stays_in_scope(scope, interner, env, names, *continuation);
            },
        },
        Stmt::Expect { remainder, .. } => {
            rewriting_stays_in_scope(scope, interner, env, names, *remainder);
        },
        Stmt::ExpectFx { remainder, .. } => {
            rewriting_stays_in_scope(scope, interner, env, names, *remainder);
        },
        Stmt::Dbg { remainder, .. } => {
            rewriting_stays_in_scope(scope, interner, env, names, *remainder);
        },
        Stmt::Join { parameters, body, remainder, .. } => {
            let cleared = env.without_incremented();
            let inside = env_with_parameters(cleared, parameters@);
            let wider = scope_with_parameters(scope, parameters@);
            parameters_add_only_layouts(cleared, parameters@);
            more_parameters(scope, scope, parameters@);
            other_knowledge_is_no_harm(env, inside, scope, wider);
            rewriting_stays_in_scope(wider, interner, inside, names, *body);
            let between = (rewritten(interner, inside, names, *body)->0).names;
            rewriting_stays_in_scope(scope, interner, env, between, *remainder);
        },
    }
}

proof fn rewritten_branches_stay_in_scope<'a>(
    scope: Map<u64, InLayout>,
    interner: Seq<LayoutEntry<'a>>,
    env: EnvironmentView,
    names: Seq<Seq<char>>,
    branches: Branches<'a>,
)
    requires
        rewritten_branches(interner, env, names, branches) is Some,
        knows_scope(env, scope),
        branches_stay_in_scope(scope, branches),
    ensures
        branches_stay_in_scope(
            scope,
            (rewritten_branches(interner, env, names, branches)->0).0,
        ),
    decreases branches,
{
    if let Branches::Cons { branch, rest, .. } = branches {
        let cleared = env.without_incremented();
        other_knowledge_is_no_harm(env, cleared, scope, scope);
        rewriting_stays_in_scope(scope, interner, cleared, names, *branch);
        let between = (rewritten(interner, cleared, names, *branch)->0).names;
        rewritten_branches_stay_in_scope(scope, interner, env, between, *rest);
    }
}

/// Whether a statement counts nothing.
pub open spec fn counts_nothing(stmt: Stmt<'_>) -> bool
    decreases stmt,
{
    match stmt {
        Stmt::Let(_, _, _, continuation) => counts_nothing(*continuation),
        Stmt::Switch { branches, default_branch, .. } => branches_count_nothing(*branches)
            && counts_nothing(*default_branch.1),
        Stmt::Refcounting(_, _) => false,
        Stmt::Expect { remainder, .. } => counts_nothing(*remainder),
        Stmt::ExpectFx { remainder, .. } => counts_nothing(*remainder),
        Stmt::Dbg { remainder, .. } => counts_nothing(*remainder),
        Stmt::Join { body, remainder, .. } => counts_nothing(*body) && counts_nothing(*remainder),
        Stmt::Ret(_) | Stmt::Jump(_, _) | Stmt::Crash(_, _) => true,
    }
}

pub open spec fn branches_count_nothing(branches: Branches<'_>) -> bool
    decreases branches,
{
    match branches {
        Branches::Nil => true,
        Branches::Cons { branch, rest, .. } => counts_nothing(*branch) && branches_count_nothing(
            *rest,
        ),
    }
}

/// A statement that counts nothing stays as it is, needs no name and uses no increment up.
pub proof fn without_counting_nothing_changes<'a>(
    interner: Seq<LayoutEntry<'a>>,
    env: EnvironmentView,
    names: Seq<Seq<char>>,
    stmt: Stmt<'a>,
)
    requires
        counts_nothing(stmt),
    ensures
        rewritten(interner, env, names, stmt) is Some,
        ({
            let after = rewritten(interner, env, names, stmt)->0;
            &&& after.stmt == stmt
            &&& after.names == names
            &&& after.env.incremented_symbols == env.incremented_symbols
        }),
    decreases stmt,
{
    match stmt {
        Stmt::Let(binding, expr, layout, continuation) => {
            let inner = env_after_binding(env, binding, expr, layout);
            if forgets_increments(expr) {
                without_counting_nothing_changes(
                    interner,
                    inner.without_incremented(),
                    names,
                    *continuation,
                );
            } else {
                without_counting_nothing_changes(interner, inner, names, *continuation);
            }
        },
        Stmt::Switch { branches, default_branch, .. } => {
            without_counting_no_branch_changes(interner, env, names, *branches);
            without_counting_nothing_changes(
                interner,
                env.without_incremented(),
                names,
                *default_branch.1,
            );
        },
        Stmt::Refcounting(_, _) => {},
        Stmt::Expect { remainder, .. } => {
            without_counting_nothing_changes(interner, env, names, *remainder);
        },
        Stmt::ExpectFx { remainder, .. } => {
            without_counting_nothing_changes(interner, env, names, *remainder);
        },
        Stmt::Dbg { remainder, .. } => {
            without_counting_nothing_changes(interner, env, names, *remainder);
        },
        Stmt::Join { parameters, body, remainder, .. } => {
            let inside = env_with_parameters(env.without_incremented(), parameters@);
            without_counting_nothing_changes(interner, inside, names, *body);
            without_counting_nothing_changes(interner, env, names, *remainder);
        },
        Stmt::Ret(_) | Stmt::Jump(_, _) | Stmt::Crash(_, _) => {},
    }
}

proof fn without_counting_no_branch_changes<'a>(
    interner: Seq<LayoutEntry<'a>>,
    env: EnvironmentView,
    names: Seq<Seq<char>>,
    branches: Branches<'a>,
)
    requires
        branches_count_nothing(branches),
    ensures
        rewritten_branches(interner, env, names, branches) == Some((branches, names)),
    decreases branches,
{
    if let Branches::Cons { branch, rest, .. } = branches {
        without_counting_nothing_changes(interner, env.without_incremented(), names, *branch);
        without_counting_no_branch_changes(interner, env, names, *rest);
    }
}

} // verus!
