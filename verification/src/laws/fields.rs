//! What becomes of the symbols that fields of structs are given.
use crate::environment::{increments_added, EnvironmentView};
use crate::ir::{
    BranchInfo, Branches, CallType, Expr, ListLiteralElement, ModifyRc, Param, Stmt,
};
use crate::laws::balance::{
    counted, parameters_add_only_layouts, symbols_of_fields_are_children,
};
use crate::laws::places::{
    branches_stand_in, counting_stands_where_it_stood, decremented_by, known_after_binding,
    known_in, may_stand_for, release_stands_in, stands_in, Known,
};
use crate::laws::shape::{
    bindings, bindings_in_branches, each_new_symbol_is_bound_once, named_between,
};
use crate::layout::{InLayout, LayoutEntry};
use crate::rewriting::{
    dec_finished, dec_prepared, env_after_binding, env_with_parameters, fields_released,
    forgets_increments, increments_popped, rewritten, rewritten_branches, DecPlan,
};
use crate::symbol::{field_name, ModuleId, Symbol};
use vstd::prelude::*;

verus! {

/// Whether an expression mentions a symbol.
pub open spec fn expr_mentions(expr: Expr<'_>, symbol: Symbol) -> bool {
    match expr {
        Expr::Call(call) => call.arguments@.contains(symbol) || (match call.call_type {
            CallType::ByName { name, .. } => name == symbol,
            CallType::HigherOrder { passed_function, .. } => passed_function == symbol,
            CallType::Foreign { .. } | CallType::LowLevel { .. } => false,
        }),
        Expr::Tag { arguments, .. } => arguments@.contains(symbol),
        Expr::Struct(arguments) => arguments@.contains(symbol),
        Expr::StructAtIndex { structure, .. } => structure == symbol,
        Expr::GetTagId { structure, .. } => structure == symbol,
        Expr::UnionAtIndex { structure, .. } => structure == symbol,
        Expr::Array { elems, .. } => elems@.contains(ListLiteralElement::Symbol(symbol)),
        Expr::ExprBox { symbol: boxed } => boxed == symbol,
        Expr::ExprUnbox { symbol: boxed } => boxed == symbol,
        Expr::Reuse { symbol: reused, arguments, .. } => reused == symbol || arguments@.contains(
            symbol,
        ),
        Expr::Reset { symbol: reset, .. } => reset == symbol,
        Expr::ResetRef { symbol: reset, .. } => reset == symbol,
        Expr::Literal(_)
        | Expr::NullPointer
        | Expr::EmptyArray
        | Expr::RuntimeErrorFunction(_) => false,
    }
}

/// Whether what is known in a branch mentions a symbol.
pub open spec fn info_mentions(info: BranchInfo, symbol: Symbol) -> bool {
    info matches BranchInfo::Constructor { scrutinee, .. } && scrutinee == symbol
}

/// Whether parameters bind a symbol.
pub open spec fn parameters_mention(parameters: Seq<Param>, symbol: Symbol) -> bool {
    exists|i: int| 0 <= i < parameters.len() && (#[trigger] parameters[i]).symbol == symbol
}

/// Whether a symbol stands in a statement only where a field of a struct is bound to it and right
/// behind that, where it is decremented.
pub open spec fn is_only_released(stmt: Stmt<'_>, symbol: Symbol) -> bool
    decreases stmt,
{
    match stmt {
        Stmt::Let(binding, expr, _, continuation) => {
            &&& !expr_mentions(expr, symbol)
            &&& if binding == symbol {
                expr is StructAtIndex && is_decremented_first(*continuation, symbol)
            } else {
                is_only_released(*continuation, symbol)
            }
        },
        Stmt::Switch { cond_symbol, branches, default_branch, .. } => {
            &&& cond_symbol != symbol
            &&& !info_mentions(default_branch.0, symbol)
            &&& is_only_released_in_branches(*branches, symbol)
            &&& is_only_released(*default_branch.1, symbol)
        },
        Stmt::Ret(returned) => returned != symbol,
        Stmt::Refcounting(rc, continuation) => counted(rc) != symbol && is_only_released(
            *continuation,
            symbol,
        ),
        Stmt::Expect { condition, lookups, remainder, .. } => {
            &&& condition != symbol
            &&& !lookups@.contains(symbol)
            &&& is_only_released(*remainder, symbol)
        },
        Stmt::ExpectFx { condition, lookups, remainder, .. } => {
            &&& condition != symbol
            &&& !lookups@.contains(symbol)
            &&& is_only_released(*remainder, symbol)
        },
        Stmt::Dbg { symbol: shown, remainder, .. } => shown != symbol && is_only_released(
            *remainder,
            symbol,
        ),
        Stmt::Join { id, parameters, body, remainder } => {
            &&& id.0 != symbol
            &&& !parameters_mention(parameters@, symbol)
            &&& is_only_released(*body, symbol)
            &&& is_only_released(*remainder, symbol)
        },
        Stmt::Jump(id, arguments) => id.0 != symbol && !arguments@.contains(symbol),
        Stmt::Crash(message, _) => message != symbol,
    }
}

/// Whether a statement decrements a symbol first, and then only releases it.
pub open spec fn is_decremented_first(stmt: Stmt<'_>, symbol: Symbol) -> bool
    decreases stmt,
{
    &&& stmt matches Stmt::Refcounting(rc, continuation)
    &&& rc == ModifyRc::Dec(symbol)
    &&& is_only_released(*continuation, symbol)
}

pub open spec fn is_only_released_in_branches(branches: Branches<'_>, symbol: Symbol) -> bool
    decreases branches,
{
    match branches {
        Branches::Nil => true,
        Branches::Cons { info, branch, rest, .. } => {
            &&& !info_mentions(info, symbol)
            &&& is_only_released(*branch, symbol)
            &&& is_only_released_in_branches(*rest, symbol)
        },
    }
}

/// Whether a symbol stands nowhere in a statement.
pub open spec fn is_unmentioned(stmt: Stmt<'_>, symbol: Symbol) -> bool {
    bindings(stmt, symbol) == 0 && is_only_released(stmt, symbol)
}

/// Whether a symbol is none of the struct children that an environment knows.
pub open spec fn is_no_struct_child(env: EnvironmentView, symbol: Symbol) -> bool {
    forall|parent: Symbol, i: int|
        0 <= i < env.struct_children_of(parent).len() ==> (
        #[trigger] env.struct_children_of(parent)[i]).0 != symbol.bits
}

proof fn other_environments_know_it_no_more(
    env: EnvironmentView,
    other: EnvironmentView,
    symbol: Symbol,
)
    requires
        is_no_struct_child(env, symbol),
        other.struct_children == env.struct_children,
    ensures
        is_no_struct_child(other, symbol),
{
    assert forall|parent: Symbol, i: int| 0 <= i < other.struct_children_of(parent).len() implies (
    #[trigger] other.struct_children_of(parent)[i]).0 != symbol.bits by {
        assert(other.struct_children_of(parent)[i] == env.struct_children_of(parent)[i]);
    }
}

proof fn other_bindings_are_no_struct_children(
    env: EnvironmentView,
    binding: Symbol,
    expr: Expr<'_>,
    layout: InLayout,
    symbol: Symbol,
)
    requires
        is_no_struct_child(env, symbol),
        binding != symbol,
    ensures
        is_no_struct_child(env_after_binding(env, binding, expr, layout), symbol),
{
    let after = env_after_binding(env, binding, expr, layout);
    assert forall|parent: Symbol, i: int| 0 <= i < after.struct_children_of(parent).len() implies (
    #[trigger] after.struct_children_of(parent)[i]).0 != symbol.bits by {
        let before = env.struct_children_of(parent);
        if i < before.len() {
            assert(after.struct_children_of(parent)[i] == before[i]);
        } else {
            assert(binding.bits != symbol.bits);
        }
    }
}

proof fn released_fields_only_release<'a>(
    interner: Seq<LayoutEntry<'a>>,
    home: ModuleId,
    structure: Symbol,
    field_layouts: &'a [InLayout],
    symbols: Seq<Option<u64>>,
    used: Set<u64>,
    from: nat,
    stmt: Stmt<'a>,
    names: Seq<Seq<char>>,
    symbol: Symbol,
)
    requires
        fields_released(interner, home, structure, field_layouts, symbols, used, from, stmt, names)
            is Some,
        is_only_released(stmt, symbol),
        structure != symbol,
        forall|i: int|
            from <= i < field_layouts@.len() ==> #[trigger] symbols[i] != Some(symbol.bits),
    ensures
        is_only_released(
            (fields_released(
                interner,
                home,
                structure,
                field_layouts,
                symbols,
                used,
                from,
                stmt,
                names,
            )->0).0,
            symbol,
        ),
    decreases field_layouts@.len() - from,
{
    if from < field_layouts@.len() {
        released_fields_only_release(
            interner,
            home,
            structure,
            field_layouts,
            symbols,
            used,
            from + 1,
            stmt,
            names,
            symbol,
        );
        assert(symbols[from as int] != Some(symbol.bits));
        reveal_with_fuel(is_only_released, 3);
        reveal_with_fuel(is_decremented_first, 2);
    }
}

proof fn rewriting_only_releases<'a>(
    interner: Seq<LayoutEntry<'a>>,
    env: EnvironmentView,
    names: Seq<Seq<char>>,
    stmt: Stmt<'a>,
    symbol: Symbol,
)
    requires
        rewritten(interner, env, names, stmt) is Some,
        is_unmentioned(stmt, symbol),
        is_no_struct_child(env, symbol),
    ensures
        is_only_released((rewritten(interner, env, names, stmt)->0).stmt, symbol),
    decreases stmt,
{
    let after = rewritten(interner, env, names, stmt)->0;
    match stmt {
        Stmt::Let(binding, expr, layout, continuation) => {
            let inner = env_after_binding(env, binding, expr, layout);
            other_bindings_are_no_struct_children(env, binding, expr, layout, symbol);
            if forgets_increments(expr) {
                let cleared = inner.without_incremented();
                other_environments_know_it_no_more(inner, cleared, symbol);
                rewriting_only_releases(interner, cleared, names, *continuation, symbol);
            } else {
                rewriting_only_releases(interner, inner, names, *continuation, symbol);
            }
        },
        Stmt::Switch { branches, default_branch, .. } => {
            let cleared = env.without_incremented();
            other_environments_know_it_no_more(env, cleared, symbol);
            let (_, between) = rewritten_branches(interner, env, names, *branches)->0;
            rewriting_branches_only_releases(interner, env, names, *branches, symbol);
            rewriting_only_releases(interner, cleared, between, *default_branch.1, symbol);
        },
        Stmt::Ret(_) | Stmt::Jump(_, _) | Stmt::Crash(_, _) => {},
        Stmt::Refcounting(rc, continuation) => match rc {
            ModifyRc::Inc(s, n) => {
                let inner = env.with_increments(
                    increments_added(env.incremented_symbols, s.bits, n),
                );
                other_environments_know_it_no_more(env, inner, symbol);
                rewriting_only_releases(interner, inner, names, *continuation, symbol);
            },
            ModifyRc::Dec(s) => {
                let (inner, plan, restored) = dec_prepared(interner, env, s)->0;
                other_environments_know_it_no_more(env, inner, symbol);
                rewriting_only_releases(interner, inner, names, *continuation, symbol);
                let between = rewritten(interner, inner, names, *continuation)->0;
                assert(Some(after) == dec_finished(interner, s, plan, restored, between));
                if let DecPlan::Fields { field_layouts, symbols, used } = plan {
                    let (_, incremented) = increments_popped(
                        env.incremented_symbols,
                        env.children_of(s),
                    )->0;
                    let children = env.struct_children_of(s);
                    symbols_of_fields_are_children(children, field_layouts@.len(), incremented);
                    assert forall|i: int|
                        0 <= i < field_layouts@.len() implies #[trigger] symbols[i] != Some(
                        symbol.bits,
                    ) by {
                        if symbols[i] is Some {
                            let p = choose|p: int|
                                0 <= p < children.len() && #[trigger] children[p].0
                                    == symbols[i]->0 && children[p].1 == i;
                            assert(env.struct_children_of(s)[p].0 != symbol.bits);
                        }
                    }
                    released_fields_only_release(
                        interner,
                        between.env.home,
                        s,
                        field_layouts,
                        symbols,
                        used,
                        0,
                        between.stmt,
                        between.names,
                        symbol,
                    );
                }
            },
            ModifyRc::DecRef(_) => {
                rewriting_only_releases(interner, env, names, *continuation, symbol);
            },
        },
        Stmt::Expect { remainder, .. } => {
            rewriting_only_releases(interner, env, names, *remainder, symbol);
        },
        Stmt::ExpectFx { remainder, .. } => {
            rewriting_only_releases(interner, env, names, *remainder, symbol);
        },
        Stmt::Dbg { remainder, .. } => {
            rewriting_only_releases(interner, env, names, *remainder, symbol);
        },
        Stmt::Join { parameters, body, remainder, .. } => {
            let cleared = env.without_incremented();
            let inside = env_with_parameters(cleared, parameters@);
            parameters_add_only_layouts(cleared, parameters@);
            other_environments_know_it_no_more(env, inside, symbol);
            rewriting_only_releases(interner, inside, names, *body, symbol);
            let between = (rewritten(interner, inside, names, *body)->0).names;
            rewriting_only_releases(interner, env, between, *remainder, symbol);
        },
    }
}

proof fn rewriting_branches_only_releases<'a>(
    interner: Seq<LayoutEntry<'a>>,
    env: EnvironmentView,
    names: Seq<Seq<char>>,
    branches: Branches<'a>,
    symbol: Symbol,
)
    requires
        rewritten_branches(interner, env, names, branches) is Some,
        bindings_in_branches(branches, symbol) == 0,
        is_only_released_in_branches(branches, symbol),
        is_no_struct_child(env, symbol),
    ensures
        is_only_released_in_branches(
            (rewritten_branches(interner, env, names, branches)->0).0,
            symbol,
        ),
    decreases branches,
{
    if let Branches::Cons { branch, rest, .. } = branches {
        let inner = env.without_incremented();
        other_environments_know_it_no_more(env, inner, symbol);
        rewriting_only_releases(interner, inner, names, *branch, symbol);
        let between = (rewritten(interner, inner, names, *branch)->0).names;
        rewriting_branches_only_releases(interner, env, between, *rest, symbol);
    }
}

/// Whether a symbol is bound only to fields of structs that have a given name.
pub open spec fn is_bound_by_name(stmt: Stmt<'_>, symbol: Symbol, name: Seq<char>) -> bool
    decreases stmt,
{
    match stmt {
        Stmt::Let(binding, expr, _, continuation) => {
            &&& binding == symbol ==> {
                &&& expr matches Expr::StructAtIndex { index, .. }
                &&& name == field_name(index as nat)
            }
            &&& is_bound_by_name(*continuation, symbol, name)
        },
        Stmt::Switch { branches, default_branch, .. } => is_bound_by_name_in_branches(
            *branches,
            symbol,
            name,
        ) && is_bound_by_name(*default_branch.1, symbol, name),
        Stmt::Refcounting(_, continuation) => is_bound_by_name(*continuation, symbol, name),
        Stmt::Expect { remainder, .. } => is_bound_by_name(*remainder, symbol, name),
        Stmt::ExpectFx { remainder, .. } => is_bound_by_name(*remainder, symbol, name),
        Stmt::Dbg { remainder, .. } => is_bound_by_name(*remainder, symbol, name),
        Stmt::Join { body, remainder, .. } => is_bound_by_name(*body, symbol, name)
            && is_bound_by_name(*remainder, symbol, name),
        Stmt::Ret(_) | Stmt::Jump(_, _) | Stmt::Crash(_, _) => true,
    }
}

pub open spec fn is_bound_by_name_in_branches(
    branches: Branches<'_>,
    symbol: Symbol,
    name: Seq<char>,
) -> bool
    decreases branches,
{
    match branches {
        Branches::Nil => true,
        Branches::Cons { branch, rest, .. } => is_bound_by_name(*branch, symbol, name)
            && is_bound_by_name_in_branches(*rest, symbol, name),
    }
}

proof fn new_bindings_have_their_names<'a>(
    home: ModuleId,
    count: nat,
    names: Seq<Seq<char>>,
    known: Known<'a>,
    decremented: Option<Symbol>,
    after: Stmt<'a>,
    before: Stmt<'a>,
    symbol: Symbol,
)
    requires
        stands_in(home, count, names, known, decremented, after, before),
        bindings(before, symbol) == 0,
    ensures
        is_bound_by_name(after, symbol, names[symbol.spec_ident_id().0 as int]),
    decreases before, after,
{
    if after matches Stmt::Refcounting(rc, rest) && may_stand_for(known, decremented, rc)
        && stands_in(home, count, names, known, decremented, *rest, before) {
        let rest = after->Refcounting_1;
        new_bindings_have_their_names(
            home,
            count,
            names,
            known,
            decremented,
            *rest,
            before,
            symbol,
        );
    } else if after matches Stmt::Let(binding, expr, _, rest) && expr matches Expr::StructAtIndex {
        index,
        structure,
        ..
    } && names[binding.spec_ident_id().0 as int] == field_name(index as nat)
        && release_stands_in(home, count, names, known, structure, binding, *rest, before) {
        let binding = after->Let_0;
        let structure = after->Let_1->StructAtIndex_structure;
        let rest = after->Let_3;
        new_releases_have_their_names(
            home,
            count,
            names,
            known,
            structure,
            binding,
            *rest,
            before,
            symbol,
        );
    } else if before matches Stmt::Refcounting(rc, rest) && stands_in(
        home,
        count,
        names,
        known,
        decremented_by(rc),
        after,
        *rest,
    ) {
        let rc = before->Refcounting_0;
        let rest = before->Refcounting_1;
        new_bindings_have_their_names(
            home,
            count,
            names,
            known,
            decremented_by(rc),
            after,
            *rest,
            symbol,
        );
    } else {
        match before {
            Stmt::Refcounting(_, rest) => {
                let after_rest = after->Refcounting_1;
                new_bindings_have_their_names(
                    home,
                    count,
                    names,
                    known,
                    None,
                    *after_rest,
                    *rest,
                    symbol,
                );
            },
            Stmt::Let(binding, expr, layout, rest) => {
                let after_rest = after->Let_3;
                new_bindings_have_their_names(
                    home,
                    count,
                    names,
                    known_after_binding(known, binding, expr, layout),
                    None,
                    *after_rest,
                    *rest,
                    symbol,
                );
            },
            Stmt::Switch { branches, default_branch, .. } => {
                let after_branches = after->Switch_branches;
                let after_default = after->Switch_default_branch;
                new_bindings_in_branches_have_their_names(
                    home,
                    count,
                    names,
                    known,
                    *after_branches,
                    *branches,
                    symbol,
                );
                new_bindings_have_their_names(
                    home,
                    count,
                    names,
                    known,
                    None,
                    *after_default.1,
                    *default_branch.1,
                    symbol,
                );
            },
            Stmt::Expect { remainder, .. } => {
                let rest = after->Expect_remainder;
                new_bindings_have_their_names(
                    home,
                    count,
                    names,
                    known,
                    None,
                    *rest,
                    *remainder,
                    symbol,
                );
            },
            Stmt::ExpectFx { remainder, .. } => {
                let rest = after->ExpectFx_remainder;
                new_bindings_have_their_names(
                    home,
                    count,
                    names,
                    known,
                    None,
                    *rest,
                    *remainder,
                    symbol,
                );
            },
            Stmt::Dbg { remainder, .. } => {
                let rest = after->Dbg_remainder;
                new_bindings_have_their_names(
                    home,
                    count,
                    names,
                    known,
                    None,
                    *rest,
                    *remainder,
                    symbol,
                );
            },
            Stmt::Join { parameters, body, remainder, .. } => {
                let inside = after->Join_body;
                let rest = after->Join_remainder;
                new_bindings_have_their_names(
                    home,
                    count,
                    names,
                    known.with_parameters(parameters@),
                    None,
                    *inside,
                    *body,
                    symbol,
                );
                new_bindings_have_their_names(
                    home,
                    count,
                    names,
                    known,
                    None,
                    *rest,
                    *remainder,
                    symbol,
                );
            },
            Stmt::Ret(_) | Stmt::Jump(_, _) | Stmt::Crash(_, _) => {},
        }
    }
}

proof fn new_releases_have_their_names<'a>(
    home: ModuleId,
    count: nat,
    names: Seq<Seq<char>>,
    known: Known<'a>,
    structure: Symbol,
    field: Symbol,
    after: Stmt<'a>,
    before: Stmt<'a>,
    symbol: Symbol,
)
    requires
        release_stands_in(home, count, names, known, structure, field, after, before),
        bindings(before, symbol) == 0,
    ensures
        is_bound_by_name(after, symbol, names[symbol.spec_ident_id().0 as int]),
    decreases before, after,
{
    let rest = after->Refcounting_1;
    new_bindings_have_their_names(
        home,
        count,
        names,
        known,
        Some(structure),
        *rest,
        before,
        symbol,
    );
}

proof fn new_bindings_in_branches_have_their_names<'a>(
    home: ModuleId,
    count: nat,
    names: Seq<Seq<char>>,
    known: Known<'a>,
    after: Branches<'a>,
    before: Branches<'a>,
    symbol: Symbol,
)
    requires
        branches_stand_in(home, count, names, known, after, before),
        bindings_in_branches(before, symbol) == 0,
    ensures
        is_bound_by_name_in_branches(after, symbol, names[symbol.spec_ident_id().0 as int]),
    decreases before, after,
{
    if let Branches::Cons { branch, rest, .. } = before {
        let after_branch = after->branch;
        let after_rest = after->rest;
        new_bindings_have_their_names(
            home,
            count,
            names,
            known,
            None,
            *after_branch,
            *branch,
            symbol,
        );
        new_bindings_in_branches_have_their_names(
            home,
            count,
            names,
            known,
            *after_rest,
            *rest,
            symbol,
        );
    }
}

/// A symbol that got its name on the way, and stood nowhere before, is bound once, to a field of a
/// struct whose name it has, where that struct was decremented. It is decremented right behind
/// that, and stands nowhere else.
pub proof fn each_new_symbol_is_released_at_once<'a>(
    interner: Seq<LayoutEntry<'a>>,
    env: EnvironmentView,
    names: Seq<Seq<char>>,
    stmt: Stmt<'a>,
    symbol: Symbol,
)
    requires
        rewritten(interner, env, names, stmt) is Some,
        is_unmentioned(stmt, symbol),
        is_no_struct_child(env, symbol),
        named_between(
            env.home,
            names,
            (rewritten(interner, env, names, stmt)->0).names,
            symbol,
        ),
    ensures
        ({
            let after = rewritten(interner, env, names, stmt)->0;
            &&& bindings(after.stmt, symbol) == 1
            &&& is_only_released(after.stmt, symbol)
            &&& is_bound_by_name(
                after.stmt,
                symbol,
                after.names[symbol.spec_ident_id().0 as int],
            )
            &&& stands_in(
                env.home,
                names.len(),
                after.names,
                known_in(interner, env),
                None,
                after.stmt,
                stmt,
            )
        }),
{
    let after = rewritten(interner, env, names, stmt)->0;
    each_new_symbol_is_bound_once(interner, env, names, stmt, symbol);
    rewriting_only_releases(interner, env, names, stmt, symbol);
    counting_stands_where_it_stood(interner, env, names, stmt);
    new_bindings_have_their_names(
        env.home,
        names.len(),
        after.names,
        known_in(interner, env),
        None,
        after.stmt,
        stmt,
        symbol,
    );
}

} // verus!
