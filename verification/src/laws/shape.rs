//! What drop specialisation leaves as it is.
use crate::environment::{fresh_symbol, increments_added, EnvironmentView};
use crate::ir::{Branches, ModifyRc, Stmt};
use crate::laws::balance::parameters_add_only_layouts;
use crate::layout::{InLayout, LayoutEntry};
use crate::rewriting::{
    dec_finished, dec_prepared, env_after_binding, env_with_parameters, fields_released,
    forgets_increments, rewritten, rewritten_branches, DecPlan,
};
use crate::symbol::{field_name, symbol_parts_come_back, IdentId, ModuleId, Symbol};
use vstd::prelude::*;

verus! {

/// Whether a symbol belongs to a module and has none of its first names.
pub open spec fn is_newer(home: ModuleId, count: nat, symbol: Symbol) -> bool {
    symbol.spec_module_id() == home && symbol.spec_ident_id().0 >= count
}

/// A statement without reference counting and without the bindings of newer symbols.
pub open spec fn erased<'a>(home: ModuleId, count: nat, stmt: Stmt<'a>) -> Stmt<'a>
    decreases stmt,
{
    match stmt {
        Stmt::Let(binding, expr, layout, continuation) => {
            let continuation = erased(home, count, *continuation);
            if is_newer(home, count, binding) {
                continuation
            } else {
                Stmt::Let(binding, expr, layout, &continuation)
            }
        },
        Stmt::Switch { cond_symbol, cond_layout, branches, default_branch, ret_layout } => {
            Stmt::Switch {
                cond_symbol,
                cond_layout,
                branches: &erased_branches(home, count, *branches),
                default_branch: (default_branch.0, &erased(home, count, *default_branch.1)),
                ret_layout,
            }
        },
        Stmt::Refcounting(_, continuation) => erased(home, count, *continuation),
        Stmt::Expect { condition, region, lookups, variables, remainder } => Stmt::Expect {
            condition,
            region,
            lookups,
            variables,
            remainder: &erased(home, count, *remainder),
        },
        Stmt::ExpectFx { condition, region, lookups, variables, remainder } => Stmt::ExpectFx {
            condition,
            region,
            lookups,
            variables,
            remainder: &erased(home, count, *remainder),
        },
        Stmt::Dbg { symbol, variable, remainder } => Stmt::Dbg {
            symbol,
            variable,
            remainder: &erased(home, count, *remainder),
        },
        Stmt::Join { id, parameters, body, remainder } => Stmt::Join {
            id,
            parameters,
            body: &erased(home, count, *body),
            remainder: &erased(home, count, *remainder),
        },
        Stmt::Ret(_) | Stmt::Jump(_, _) | Stmt::Crash(_, _) => stmt,
    }
}

pub open spec fn erased_branches<'a>(
    home: ModuleId,
    count: nat,
    branches: Branches<'a>,
) -> Branches<'a>
    decreases branches,
{
    match branches {
        Branches::Nil => branches,
        Branches::Cons { label, info, branch, rest } => Branches::Cons {
            label,
            info,
            branch: &erased(home, count, *branch),
            rest: &erased_branches(home, count, *rest),
        },
    }
}

/// How often a statement binds a symbol by a `Let`.
pub open spec fn bindings(stmt: Stmt<'_>, symbol: Symbol) -> nat
    decreases stmt,
{
    match stmt {
        Stmt::Let(binding, _, _, continuation) => bindings(*continuation, symbol) + (if binding
            == symbol {
            1nat
        } else {
            0nat
        }),
        Stmt::Switch { branches, default_branch, .. } => bindings_in_branches(*branches, symbol)
            + bindings(*default_branch.1, symbol),
        Stmt::Refcounting(_, continuation) => bindings(*continuation, symbol),
        Stmt::Expect { remainder, .. } => bindings(*remainder, symbol),
        Stmt::ExpectFx { remainder, .. } => bindings(*remainder, symbol),
        Stmt::Dbg { remainder, .. } => bindings(*remainder, symbol),
        Stmt::Join { body, remainder, .. } => bindings(*body, symbol) + bindings(
            *remainder,
            symbol,
        ),
        Stmt::Ret(_) | Stmt::Jump(_, _) | Stmt::Crash(_, _) => 0,
    }
}

pub open spec fn bindings_in_branches(branches: Branches<'_>, symbol: Symbol) -> nat
    decreases branches,
{
    match branches {
        Branches::Nil => 0,
        Branches::Cons { branch, rest, .. } => bindings(*branch, symbol) + bindings_in_branches(
            *rest,
            symbol,
        ),
    }
}

/// Whether a symbol has one of the names that a module was given between two moments.
pub open spec fn named_between(
    home: ModuleId,
    before: Seq<Seq<char>>,
    after: Seq<Seq<char>>,
    symbol: Symbol,
) -> bool {
    symbol.spec_module_id() == home && before.len() <= symbol.spec_ident_id().0 < after.len()
}

/// Whether a name is that of a field.
pub open spec fn is_field_name(name: Seq<char>) -> bool {
    exists|index: nat| name == #[trigger] field_name(index)
}

/// Whether names were added and none was changed, and all that were added are those of fields and
/// have a number.
pub open spec fn gained_field_names(before: Seq<Seq<char>>, after: Seq<Seq<char>>) -> bool {
    &&& before.len() <= after.len()
    &&& before == after.take(before.len() as int)
    &&& before.len() < after.len() ==> after.len() <= u32::MAX + 1
    &&& forall|i: int|
        before.len() <= i < after.len() ==> is_field_name(#[trigger] after[i])
}

pub(crate) proof fn gaining_is_transitive(a: Seq<Seq<char>>, b: Seq<Seq<char>>, c: Seq<Seq<char>>)
    requires
        gained_field_names(a, b),
        gained_field_names(b, c),
    ensures
        gained_field_names(a, c),
{
    assert(a =~= c.take(a.len() as int)) by {
        assert forall|i: int| 0 <= i < a.len() implies a[i] == c[i] by {
            assert(a[i] == b.take(a.len() as int)[i]);
            assert(b[i] == c.take(b.len() as int)[i]);
        }
    }
    assert forall|i: int| a.len() <= i < c.len() implies is_field_name(#[trigger] c[i]) by {
        if i < b.len() {
            assert(b[i] == c.take(b.len() as int)[i]);
        }
    }
}

pub(crate) proof fn a_fresh_symbol_is_newer(home: ModuleId, names: Seq<Seq<char>>)
    requires
        names.len() <= u32::MAX,
    ensures
        fresh_symbol(home, names).spec_module_id() == home,
        fresh_symbol(home, names).spec_ident_id().0 == names.len(),
        forall|symbol: Symbol|
            symbol.spec_module_id() == home && symbol.spec_ident_id().0 == names.len()
                ==> symbol == fresh_symbol(home, names),
{
    symbol_parts_come_back(home, IdentId(names.len() as u32));
    assert forall|symbol: Symbol|
        symbol.spec_module_id() == home && symbol.spec_ident_id().0
            == names.len() implies symbol == fresh_symbol(home, names) by {
        assert(symbol.bits == (symbol.bits / 0x1_0000_0000) * 0x1_0000_0000 + symbol.bits
            % 0x1_0000_0000);
    }
}

pub(crate) proof fn released_fields_keep_the_shape<'a>(
    interner: Seq<LayoutEntry<'a>>,
    home: ModuleId,
    structure: Symbol,
    field_layouts: &'a [InLayout],
    symbols: Seq<Option<u64>>,
    used: Set<u64>,
    from: nat,
    stmt: Stmt<'a>,
    names: Seq<Seq<char>>,
    count: nat,
    symbol: Symbol,
)
    requires
        count <= names.len(),
        fields_released(interner, home, structure, field_layouts, symbols, used, from, stmt, names)
            is Some,
    ensures
        ({
            let (released, after) = fields_released(
                interner,
                home,
                structure,
                field_layouts,
                symbols,
                used,
                from,
                stmt,
                names,
            )->0;
            &&& erased(home, count, released) == erased(home, count, stmt)
            &&& gained_field_names(names, after)
            &&& bindings(released, symbol) == bindings(stmt, symbol) + (if named_between(
                home,
                names,
                after,
                symbol,
            ) {
                1nat
            } else {
                0nat
            })
        }),
    decreases field_layouts@.len() - from,
{
    if from >= field_layouts@.len() {
        assert(names =~= names.take(names.len() as int));
    } else {
        released_fields_keep_the_shape(
            interner,
            home,
            structure,
            field_layouts,
            symbols,
            used,
            from + 1,
            stmt,
            names,
            count,
            symbol,
        );
        let (rest, between) = fields_released(
            interner,
            home,
            structure,
            field_layouts,
            symbols,
            used,
            from + 1,
            stmt,
            names,
        )->0;
        let (released, after) = fields_released(
            interner,
            home,
            structure,
            field_layouts,
            symbols,
            used,
            from,
            stmt,
            names,
        )->0;
        if after != between {
            a_fresh_symbol_is_newer(home, between);
            assert(after == between.push(field_name(from)));
            assert(between =~= after.take(between.len() as int));
            assert(gained_field_names(between, after));
            gaining_is_transitive(names, between, after);
            reveal_with_fuel(erased, 3);
            reveal_with_fuel(bindings, 3);
        }
    }
}

/// What holds between a statement and what it becomes, for the laws below.
pub(crate) open spec fn shape_kept<'a>(
    home: ModuleId,
    count: nat,
    symbol: Symbol,
    names: Seq<Seq<char>>,
    stmt: Stmt<'a>,
    new_names: Seq<Seq<char>>,
    new_stmt: Stmt<'a>,
) -> bool {
    &&& erased(home, count, new_stmt) == erased(home, count, stmt)
    &&& gained_field_names(names, new_names)
    &&& bindings(new_stmt, symbol) == bindings(stmt, symbol) + (if named_between(
        home,
        names,
        new_names,
        symbol,
    ) {
        1nat
    } else {
        0nat
    })
}

pub(crate) proof fn rewriting_keeps_the_shape<'a>(
    interner: Seq<LayoutEntry<'a>>,
    env: EnvironmentView,
    names: Seq<Seq<char>>,
    stmt: Stmt<'a>,
    count: nat,
    symbol: Symbol,
)
    requires
        count <= names.len(),
        rewritten(interner, env, names, stmt) is Some,
    ensures
        ({
            let after = rewritten(interner, env, names, stmt)->0;
            &&& after.env.home == env.home
            &&& shape_kept(env.home, count, symbol, names, stmt, after.names, after.stmt)
        }),
    decreases stmt,
{
    let after = rewritten(interner, env, names, stmt)->0;
    match stmt {
        Stmt::Let(binding, expr, layout, continuation) => {
            let inner = env_after_binding(env, binding, expr, layout);
            if forgets_increments(expr) {
                rewriting_keeps_the_shape(
                    interner,
                    inner.without_incremented(),
                    names,
                    *continuation,
                    count,
                    symbol,
                );
            } else {
                rewriting_keeps_the_shape(interner, inner, names, *continuation, count, symbol);
            }
        },
        Stmt::Switch { branches, default_branch, .. } => {
            branches_keep_the_shape(interner, env, names, *branches, count, symbol);
            let (_, between) = rewritten_branches(interner, env, names, *branches)->0;
            rewriting_keeps_the_shape(
                interner,
                env.without_incremented(),
                between,
                *default_branch.1,
                count,
                symbol,
            );
            gaining_is_transitive(names, between, after.names);
        },
        Stmt::Ret(_) | Stmt::Jump(_, _) | Stmt::Crash(_, _) => {
            assert(names =~= names.take(names.len() as int));
        },
        Stmt::Refcounting(rc, continuation) => match rc {
            ModifyRc::Inc(s, n) => {
                let increments = env.incremented_symbols;
                rewriting_keeps_the_shape(
                    interner,
                    env.with_increments(
                        increments_added(increments, s.bits, n),
                    ),
                    names,
                    *continuation,
                    count,
                    symbol,
                );
            },
            ModifyRc::Dec(s) => {
                let (inner, plan, restored) = dec_prepared(interner, env, s)->0;
                rewriting_keeps_the_shape(interner, inner, names, *continuation, count, symbol);
                let between = rewritten(interner, inner, names, *continuation)->0;
                assert(Some(after) == dec_finished(interner, s, plan, restored, between));
                if let DecPlan::Fields { field_layouts, symbols, used } = plan {
                    released_fields_keep_the_shape(
                        interner,
                        env.home,
                        s,
                        field_layouts,
                        symbols,
                        used,
                        0,
                        between.stmt,
                        between.names,
                        count,
                        symbol,
                    );
                    gaining_is_transitive(names, between.names, after.names);
                }
            },
            ModifyRc::DecRef(_) => {
                rewriting_keeps_the_shape(interner, env, names, *continuation, count, symbol);
            },
        },
        Stmt::Expect { remainder, .. } => {
            rewriting_keeps_the_shape(interner, env, names, *remainder, count, symbol);
        },
        Stmt::ExpectFx { remainder, .. } => {
            rewriting_keeps_the_shape(interner, env, names, *remainder, count, symbol);
        },
        Stmt::Dbg { remainder, .. } => {
            rewriting_keeps_the_shape(interner, env, names, *remainder, count, symbol);
        },
        Stmt::Join { parameters, body, remainder, .. } => {
            let inside = env_with_parameters(env.without_incremented(), parameters@);
            parameters_add_only_layouts(env.without_incremented(), parameters@);
            rewriting_keeps_the_shape(interner, inside, names, *body, count, symbol);
            let between = (rewritten(interner, inside, names, *body)->0).names;
            rewriting_keeps_the_shape(interner, env, between, *remainder, count, symbol);
            gaining_is_transitive(names, between, after.names);
        },
    }
}

pub(crate) proof fn branches_keep_the_shape<'a>(
    interner: Seq<LayoutEntry<'a>>,
    env: EnvironmentView,
    names: Seq<Seq<char>>,
    branches: Branches<'a>,
    count: nat,
    symbol: Symbol,
)
    requires
        count <= names.len(),
        rewritten_branches(interner, env, names, branches) is Some,
    ensures
        ({
            let (new_branches, after) = rewritten_branches(interner, env, names, branches)->0;
            &&& erased_branches(env.home, count, new_branches) == erased_branches(
                env.home,
                count,
                branches,
            )
            &&& gained_field_names(names, after)
            &&& bindings_in_branches(new_branches, symbol) == bindings_in_branches(
                branches,
                symbol,
            ) + (if named_between(env.home, names, after, symbol) {
                1nat
            } else {
                0nat
            })
        }),
    decreases branches,
{
    let (new_branches, after) = rewritten_branches(interner, env, names, branches)->0;
    match branches {
        Branches::Nil => {
            assert(names =~= names.take(names.len() as int));
        },
        Branches::Cons { branch, rest, .. } => {
            let inner = env.without_incremented();
            rewriting_keeps_the_shape(interner, inner, names, *branch, count, symbol);
            let between = (rewritten(interner, inner, names, *branch)->0).names;
            branches_keep_the_shape(interner, env, between, *rest, count, symbol);
            gaining_is_transitive(names, between, after);
        },
    }
}

/// Nothing but reference counting changes: without it, and without the bindings of symbols that
/// got their name on the way, a statement and what it becomes are the same.
pub proof fn only_reference_counting_changes<'a>(
    interner: Seq<LayoutEntry<'a>>,
    env: EnvironmentView,
    names: Seq<Seq<char>>,
    stmt: Stmt<'a>,
)
    requires
        rewritten(interner, env, names, stmt) is Some,
    ensures
        erased(env.home, names.len(), (rewritten(interner, env, names, stmt)->0).stmt) == erased(
            env.home,
            names.len(),
            stmt,
        ),
{
    rewriting_keeps_the_shape(interner, env, names, stmt, names.len(), Symbol { bits: 0 });
}

/// The names that were there stay, in their places, and all names that are added are those of
/// fields.
pub proof fn only_field_names_are_added<'a>(
    interner: Seq<LayoutEntry<'a>>,
    env: EnvironmentView,
    names: Seq<Seq<char>>,
    stmt: Stmt<'a>,
)
    requires
        rewritten(interner, env, names, stmt) is Some,
    ensures
        gained_field_names(names, (rewritten(interner, env, names, stmt)->0).names),
{
    rewriting_keeps_the_shape(interner, env, names, stmt, names.len(), Symbol { bits: 0 });
}

/// Each symbol that got its name on the way is bound once more than before, every other symbol
/// as often as before.
pub proof fn each_new_symbol_is_bound_once<'a>(
    interner: Seq<LayoutEntry<'a>>,
    env: EnvironmentView,
    names: Seq<Seq<char>>,
    stmt: Stmt<'a>,
    symbol: Symbol,
)
    requires
        rewritten(interner, env, names, stmt) is Some,
    ensures
        ({
            let after = rewritten(interner, env, names, stmt)->0;
            bindings(after.stmt, symbol) == bindings(stmt, symbol) + (if named_between(
                env.home,
                names,
                after.names,
                symbol,
            ) {
                1nat
            } else {
                0nat
            })
        }),
{
    rewriting_keeps_the_shape(interner, env, names, stmt, names.len(), symbol);
}

} // verus!
