//! Drop specialisation keeps reference counts balanced.
//!
//! What a count is worth is left open. All that is asked is that a struct is worth what its
//! fields are worth together, and that a field without reference counted values is worth
//! nothing. A box is worth what its cell and its contents are worth together: a decrement of a
//! box counts as a release of the cell and a decrement of the contents, which is what it is when
//! the box is not shared.
use crate::environment::{
    fresh_symbol, increments_added, outstanding, Child, EnvironmentView, Index,
};
use crate::ir::{Branches, Expr, ModifyRc, Param, Proc, ProcLayout, Stmt};
use crate::laws::increments::increments_are_performed;
use crate::laws::procedures::{
    each_procedure_is_rewritten_on_its_own, procedures_add_only_field_names,
};
use crate::laws::shape::{
    a_fresh_symbol_is_newer, bindings, bindings_in_branches, branches_keep_the_shape, is_newer,
    named_between, released_fields_keep_the_shape, rewriting_keeps_the_shape,
};
use crate::laws::sums::{
    pending, pending_after_adding, pending_after_popping, pending_after_popping_all,
    pending_after_restoring, pending_without, total, total_depends_on_members, total_splits,
    total_with, weighed,
};
use crate::layout::{InLayout, Layout, LayoutEntry};
use crate::rewriting::{
    child_of_field, children_of_fields, dec_finished, dec_plan, dec_prepared, env_after_binding,
    env_with_arguments, env_with_parameters, fields_released, first_in, forgets_increments,
    increments_popped, plan_applied, rewritten, rewritten_branches, rewritten_proc,
    rewritten_procs, DecPlan,
};
use crate::symbol::{ModuleId, Symbol};
use vstd::prelude::*;

verus! {

/// What counts are worth.
pub struct Weights {
    /// One count of a symbol.
    pub symbol: spec_fn(u64) -> int,
    /// One count of a field of a struct.
    pub field: spec_fn(u64, int) -> int,
    /// One count of a box without its contents.
    pub cell: spec_fn(u64) -> int,
}

impl Weights {
    /// The same with another worth of a symbol.
    pub open spec fn with(self, symbol: Symbol, worth: int) -> Weights {
        Weights {
            symbol: |other: u64|
                if other == symbol.bits {
                    worth
                } else {
                    (self.symbol)(other)
                },
            ..self
        }
    }

    /// The same once a symbol is bound to an expression: what is indexed out of a struct is worth
    /// what the field is worth, what is taken out of a box what the box is worth without its
    /// cell.
    pub open spec fn after_binding(self, binding: Symbol, expr: Expr<'_>) -> Weights {
        match expr {
            Expr::StructAtIndex { index, structure, .. } => self.with(
                binding,
                (self.field)(structure.bits, index as int),
            ),
            Expr::ExprUnbox { symbol } => self.with(
                binding,
                (self.symbol)(symbol.bits) - (self.cell)(symbol.bits),
            ),
            _ => self,
        }
    }
}

/// A way through a statement: it may stop before anything that can change counts by itself and
/// before a switch, and tells which branch of a switch is taken. At a join point it may run the
/// body after the remainder.
pub enum Path {
    Stop,
    Go(nat, Box<Path>),
    Both { remainder: Box<Path>, body: Box<Path> },
}

/// What the reference counting on a way through a statement is worth.
pub open spec fn net(weights: Weights, stmt: Stmt<'_>, path: Path) -> int
    decreases stmt,
{
    match stmt {
        Stmt::Let(binding, expr, _, continuation) => if expr is Call || expr is Tag || expr
            is Struct {
            match path {
                Path::Go(_, path) => net(weights, *continuation, *path),
                _ => 0,
            }
        } else {
            net(weights.after_binding(binding, expr), *continuation, path)
        },
        Stmt::Switch { branches, default_branch, .. } => match path {
            Path::Go(index, path) => match net_of_branch(weights, *branches, index, *path) {
                Some(worth) => worth,
                None => net(weights, *default_branch.1, *path),
            },
            _ => 0,
        },
        Stmt::Refcounting(rc, continuation) => net(weights, *continuation, path) + (match rc {
            ModifyRc::Inc(symbol, count) => count * (weights.symbol)(symbol.bits),
            ModifyRc::Dec(symbol) => -(weights.symbol)(symbol.bits),
            ModifyRc::DecRef(symbol) => -(weights.cell)(symbol.bits),
        }),
        Stmt::Expect { remainder, .. } => net(weights, *remainder, path),
        Stmt::ExpectFx { remainder, .. } => net(weights, *remainder, path),
        Stmt::Dbg { remainder, .. } => net(weights, *remainder, path),
        Stmt::Join { body, remainder, .. } => match path {
            Path::Both { remainder: first, body: then } => net(weights, *remainder, *first) + net(
                weights,
                *body,
                *then,
            ),
            _ => net(weights, *remainder, path),
        },
        Stmt::Ret(_) | Stmt::Jump(_, _) | Stmt::Crash(_, _) => 0,
    }
}

/// The same for a branch of a switch, if there is one at that position.
pub open spec fn net_of_branch(
    weights: Weights,
    branches: Branches<'_>,
    index: nat,
    path: Path,
) -> Option<int>
    decreases branches,
{
    match branches {
        Branches::Nil => None,
        Branches::Cons { branch, rest, .. } => if index == 0 {
            Some(net(weights, *branch, path))
        } else {
            net_of_branch(weights, *rest, (index - 1) as nat, path)
        },
    }
}

/// The layout of a symbol, if it is in scope.
pub open spec fn layout_of<'a>(
    interner: Seq<LayoutEntry<'a>>,
    scope: Map<u64, InLayout>,
    symbol: u64,
) -> Option<Layout<'a>> {
    if scope.contains_key(symbol) && scope[symbol].0 < interner.len() {
        Some(interner[scope[symbol].0 as int].layout)
    } else {
        None
    }
}

/// Whether a symbol is a box.
pub open spec fn is_boxed(
    interner: Seq<LayoutEntry<'_>>,
    scope: Map<u64, InLayout>,
    symbol: u64,
) -> bool {
    layout_of(interner, scope, symbol) matches Some(Layout::Boxed(_))
}

/// Whether what an expression indexes or unboxes is in scope, and no field is indexed out of a
/// box.
pub open spec fn is_scoped_expr(
    interner: Seq<LayoutEntry<'_>>,
    scope: Map<u64, InLayout>,
    expr: Expr<'_>,
) -> bool {
    match expr {
        Expr::StructAtIndex { structure, .. } => scope.contains_key(structure.bits) && !is_boxed(
            interner,
            scope,
            structure.bits,
        ),
        Expr::UnionAtIndex { structure, .. } => scope.contains_key(structure.bits) && !is_boxed(
            interner,
            scope,
            structure.bits,
        ),
        Expr::ExprUnbox { symbol } => scope.contains_key(symbol.bits),
        _ => true,
    }
}

/// The symbol whose count changes.
pub open spec fn counted(rc: ModifyRc) -> Symbol {
    match rc {
        ModifyRc::Inc(symbol, _) => symbol,
        ModifyRc::Dec(symbol) => symbol,
        ModifyRc::DecRef(symbol) => symbol,
    }
}

/// The scope inside a join point.
pub open spec fn scope_with_parameters(
    scope: Map<u64, InLayout>,
    parameters: Seq<Param>,
) -> Map<u64, InLayout>
    decreases parameters.len(),
{
    if parameters.len() == 0 {
        scope
    } else {
        scope_with_parameters(scope, parameters.drop_last()).insert(
            parameters.last().symbol.bits,
            parameters.last().layout,
        )
    }
}

/// Whether a statement counts, indexes and unboxes only symbols that are in scope, and binds only
/// symbols that are not: none twice on a way through it, and none that the home module has no
/// name for yet.
pub open spec fn is_scoped(
    interner: Seq<LayoutEntry<'_>>,
    home: ModuleId,
    count: nat,
    scope: Map<u64, InLayout>,
    stmt: Stmt<'_>,
) -> bool
    decreases stmt,
{
    match stmt {
        Stmt::Let(binding, expr, layout, continuation) => {
            &&& !scope.contains_key(binding.bits)
            &&& !is_newer(home, count, binding)
            &&& is_scoped_expr(interner, scope, expr)
            &&& is_scoped(interner, home, count, scope.insert(binding.bits, layout), *continuation)
        },
        Stmt::Switch { branches, default_branch, .. } => {
            &&& are_scoped(interner, home, count, scope, *branches)
            &&& is_scoped(interner, home, count, scope, *default_branch.1)
        },
        Stmt::Refcounting(rc, continuation) => {
            &&& scope.contains_key(counted(rc).bits)
            &&& is_scoped(interner, home, count, scope, *continuation)
        },
        Stmt::Expect { remainder, .. } => is_scoped(interner, home, count, scope, *remainder),
        Stmt::ExpectFx { remainder, .. } => is_scoped(interner, home, count, scope, *remainder),
        Stmt::Dbg { remainder, .. } => is_scoped(interner, home, count, scope, *remainder),
        Stmt::Join { parameters, body, remainder, .. } => {
            &&& forall|i: int|
                0 <= i < parameters@.len() ==> !scope.contains_key(
                    (#[trigger] parameters@[i]).symbol.bits,
                ) && !is_newer(home, count, parameters@[i].symbol)
            &&& is_scoped(interner, home, count, scope_with_parameters(scope, parameters@), *body)
            &&& is_scoped(interner, home, count, scope, *remainder)
        },
        Stmt::Ret(_) | Stmt::Jump(_, _) | Stmt::Crash(_, _) => true,
    }
}

pub open spec fn are_scoped(
    interner: Seq<LayoutEntry<'_>>,
    home: ModuleId,
    count: nat,
    scope: Map<u64, InLayout>,
    branches: Branches<'_>,
) -> bool
    decreases branches,
{
    match branches {
        Branches::Nil => true,
        Branches::Cons { branch, rest, .. } => is_scoped(interner, home, count, scope, *branch)
            && are_scoped(interner, home, count, scope, *rest),
    }
}

/// The sum of a function over a range.
pub open spec fn sum(f: spec_fn(int) -> int, from: int, to: int) -> int
    decreases to - from,
{
    if from >= to {
        0
    } else {
        f(from) + sum(f, from + 1, to)
    }
}

pub open spec fn field_worth(weights: Weights, symbol: u64) -> spec_fn(int) -> int {
    |i: int| (weights.field)(symbol, i)
}

/// Whether a symbol, if it is a struct, is worth what its fields are worth together, and its
/// fields without reference counted values are worth nothing.
pub open spec fn fits_struct(
    weights: Weights,
    interner: Seq<LayoutEntry<'_>>,
    scope: Map<u64, InLayout>,
    symbol: u64,
) -> bool {
    match layout_of(interner, scope, symbol) {
        Some(Layout::Struct { field_layouts }) => {
            &&& (weights.symbol)(symbol) == sum(
                field_worth(weights, symbol),
                0,
                field_layouts@.len() as int,
            )
            &&& forall|i: int|
                0 <= i < field_layouts@.len() && (#[trigger] field_layouts@[i]).0 < interner.len()
                    && !interner[field_layouts@[i].0 as int].contains_refcounted ==> (
                weights.field)(symbol, i) == 0
        },
        _ => true,
    }
}

/// Whether that holds of all symbols in scope.
pub open spec fn fits_scope(
    weights: Weights,
    interner: Seq<LayoutEntry<'_>>,
    scope: Map<u64, InLayout>,
) -> bool {
    forall|symbol: u64| #[trigger] fits_struct(weights, interner, scope, symbol)
}

/// Whether that holds of all symbols that a statement binds.
pub open spec fn fits(
    weights: Weights,
    interner: Seq<LayoutEntry<'_>>,
    scope: Map<u64, InLayout>,
    stmt: Stmt<'_>,
) -> bool
    decreases stmt,
{
    match stmt {
        Stmt::Let(binding, expr, layout, continuation) => {
            let weights = weights.after_binding(binding, expr);
            let scope = scope.insert(binding.bits, layout);
            &&& fits_struct(weights, interner, scope, binding.bits)
            &&& fits(weights, interner, scope, *continuation)
        },
        Stmt::Switch { branches, default_branch, .. } => {
            &&& fits_branches(weights, interner, scope, *branches)
            &&& fits(weights, interner, scope, *default_branch.1)
        },
        Stmt::Refcounting(_, continuation) => fits(weights, interner, scope, *continuation),
        Stmt::Expect { remainder, .. } => fits(weights, interner, scope, *remainder),
        Stmt::ExpectFx { remainder, .. } => fits(weights, interner, scope, *remainder),
        Stmt::Dbg { remainder, .. } => fits(weights, interner, scope, *remainder),
        Stmt::Join { parameters, body, remainder, .. } => {
            let inside = scope_with_parameters(scope, parameters@);
            &&& fits_scope(weights, interner, inside)
            &&& fits(weights, interner, inside, *body)
            &&& fits(weights, interner, scope, *remainder)
        },
        Stmt::Ret(_) | Stmt::Jump(_, _) | Stmt::Crash(_, _) => true,
    }
}

pub open spec fn fits_branches(
    weights: Weights,
    interner: Seq<LayoutEntry<'_>>,
    scope: Map<u64, InLayout>,
    branches: Branches<'_>,
) -> bool
    decreases branches,
{
    match branches {
        Branches::Nil => true,
        Branches::Cons { branch, rest, .. } => fits(weights, interner, scope, *branch)
            && fits_branches(weights, interner, scope, *rest),
    }
}

/// Whether the weights fit all that an environment knows. It knows each child once, and only
/// symbols in scope that the home module has a name for.
pub open spec fn fits_env(
    weights: Weights,
    interner: Seq<LayoutEntry<'_>>,
    count: nat,
    env: EnvironmentView,
) -> bool {
    &&& env.incremented_symbols.dom().finite()
    &&& env.incremented_symbols.dom().subset_of(env.symbol_layouts.dom())
    &&& fits_scope(weights, interner, env.symbol_layouts)
    &&& forall|symbol: Symbol|
        env.symbol_layouts.contains_key(symbol.bits) ==> !#[trigger] is_newer(
            env.home,
            count,
            symbol,
        )
    &&& forall|symbol: Symbol| #[trigger] fits_children(weights, interner, env, symbol)
}

/// Whether the weights fit the children of a symbol.
pub open spec fn fits_children(
    weights: Weights,
    interner: Seq<LayoutEntry<'_>>,
    env: EnvironmentView,
    symbol: Symbol,
) -> bool {
    &&& env.children_of(symbol).no_duplicates()
    &&& env.children_of(symbol).len() > 0 ==> env.symbol_layouts.contains_key(symbol.bits)
    &&& forall|i: int|
        0 <= i < env.children_of(symbol).len() ==> env.symbol_layouts.contains_key(
            #[trigger] env.children_of(symbol)[i],
        )
    &&& forall|i: int|
        0 <= i < env.struct_children_of(symbol).len() ==> (weights.symbol)(
            (#[trigger] env.struct_children_of(symbol)[i]).0,
        ) == (weights.field)(symbol.bits, env.struct_children_of(symbol)[i].1 as int)
    &&& forall|i: int|
        0 <= i < env.box_children_of(symbol).len() ==> (weights.symbol)(symbol.bits) == (
        weights.cell)(symbol.bits) + (weights.symbol)(#[trigger] env.box_children_of(symbol)[i])
    &&& is_boxed(interner, env.symbol_layouts, symbol.bits) ==> env.struct_children_of(symbol).len()
        == 0 && env.union_children_of(symbol).len() == 0
}

proof fn fits_other_increments(
    weights: Weights,
    interner: Seq<LayoutEntry<'_>>,
    count: nat,
    env: EnvironmentView,
    increments: Map<u64, u64>,
)
    requires
        fits_env(weights, interner, count, env),
        increments.dom().finite(),
        increments.dom().subset_of(env.symbol_layouts.dom()),
    ensures
        fits_env(weights, interner, count, env.with_increments(increments)),
{
    let other = env.with_increments(increments);
    assert forall|symbol: Symbol| #[trigger] fits_children(weights, interner, other, symbol) by {
        assert(fits_children(weights, interner, env, symbol));
        assert(other.children_of(symbol) == env.children_of(symbol));
    }
}

proof fn fits_a_new_symbol(
    weights: Weights,
    interner: Seq<LayoutEntry<'_>>,
    count: nat,
    env: EnvironmentView,
    symbol: Symbol,
    layout: InLayout,
    after: Weights,
)
    requires
        fits_env(weights, interner, count, env),
        !env.symbol_layouts.contains_key(symbol.bits),
        !is_newer(env.home, count, symbol),
        after == weights || exists|worth: int| after == #[trigger] weights.with(symbol, worth),
        fits_struct(
            after,
            interner,
            env.symbol_layouts.insert(symbol.bits, layout),
            symbol.bits,
        ),
    ensures
        fits_env(after, interner, count, env.with_symbol_layout(symbol, layout)),
{
    let other = env.with_symbol_layout(symbol, layout);
    assert forall|s: u64| #[trigger] fits_struct(after, interner, other.symbol_layouts, s) by {
        assert(fits_struct(weights, interner, env.symbol_layouts, s));
        if s != symbol.bits {
            assert(field_worth(after, s) =~= field_worth(weights, s));
        }
    }
    assert forall|s: Symbol| #[trigger] fits_children(after, interner, other, s) by {
        assert(fits_children(weights, interner, env, s));
        let children = env.children_of(s);
        assert(other.children_of(s) == children);
        let first = env.struct_children_of(s).map_values(|child: (Child, Index)| child.0);
        let second = env.union_children_of(s).map_values(|child: (Child, u16, Index)| child.0);
        assert forall|i: int| 0 <= i < env.struct_children_of(s).len() implies (
        #[trigger] env.struct_children_of(s)[i]).0 != symbol.bits by {
            assert(children[i] == first[i]);
        }
        assert forall|i: int| 0 <= i < env.box_children_of(s).len() implies (
        #[trigger] env.box_children_of(s)[i]) != symbol.bits by {
            assert(children[first.len() + second.len() + i] == env.box_children_of(s)[i]);
        }
        if env.struct_children_of(s).len() > 0 || env.union_children_of(s).len() > 0
            || env.box_children_of(s).len() > 0 {
            assert(children.len() > 0);
        }
    }
    assert(other.symbol_layouts.dom() =~= env.symbol_layouts.dom().insert(symbol.bits));
}

proof fn fits_parameters(
    weights: Weights,
    interner: Seq<LayoutEntry<'_>>,
    count: nat,
    env: EnvironmentView,
    parameters: Seq<Param>,
)
    requires
        fits_env(weights, interner, count, env),
        env.incremented_symbols == Map::<u64, u64>::empty(),
        fits_scope(weights, interner, scope_with_parameters(env.symbol_layouts, parameters)),
        forall|i: int|
            0 <= i < parameters.len() ==> !env.symbol_layouts.contains_key(
                (#[trigger] parameters[i]).symbol.bits,
            ) && !is_newer(env.home, count, parameters[i].symbol),
    ensures
        fits_env(weights, interner, count, env_with_parameters(env, parameters)),
{
    parameters_change_the_scope(env, parameters);
    let other = env_with_parameters(env, parameters);
    assert forall|s: Symbol| #[trigger] fits_children(weights, interner, other, s) by {
        assert(fits_children(weights, interner, env, s));
        assert(other.children_of(s) == env.children_of(s));
        if env.struct_children_of(s).len() > 0 || env.union_children_of(s).len() > 0 {
            assert(env.children_of(s).len() > 0);
            assert(env.symbol_layouts.contains_key(s.bits));
        }
    }
    assert forall|symbol: Symbol|
        other.symbol_layouts.contains_key(symbol.bits) implies !#[trigger] is_newer(
        other.home,
        count,
        symbol,
    ) by {
        if !env.symbol_layouts.contains_key(symbol.bits) {
            let i = choose|i: int|
                0 <= i < parameters.len() && (#[trigger] parameters[i]).symbol.bits == symbol.bits;
            assert(parameters[i].symbol == symbol);
        }
    }
}

pub(crate) proof fn parameters_add_only_layouts(env: EnvironmentView, parameters: Seq<Param>)
    ensures
        env_with_parameters(env, parameters) == (EnvironmentView {
            symbol_layouts: scope_with_parameters(env.symbol_layouts, parameters),
            ..env
        }),
    decreases parameters.len(),
{
    if parameters.len() > 0 {
        parameters_add_only_layouts(env, parameters.drop_last());
    }
}

proof fn parameters_change_the_scope(env: EnvironmentView, parameters: Seq<Param>)
    ensures
        env_with_parameters(env, parameters) == (EnvironmentView {
            symbol_layouts: scope_with_parameters(env.symbol_layouts, parameters),
            ..env
        }),
        forall|symbol: u64| #[trigger]
            scope_with_parameters(env.symbol_layouts, parameters).contains_key(symbol)
                <==> env.symbol_layouts.contains_key(symbol) || exists|i: int|
                0 <= i < parameters.len() && (#[trigger] parameters[i]).symbol.bits == symbol,
        forall|symbol: u64|
            (forall|i: int|
                0 <= i < parameters.len() ==> (#[trigger] parameters[i]).symbol.bits != symbol)
                ==> #[trigger] scope_with_parameters(env.symbol_layouts, parameters)[symbol]
                == env.symbol_layouts[symbol],
    decreases parameters.len(),
{
    if parameters.len() > 0 {
        let others = parameters.drop_last();
        let last = parameters.len() - 1;
        parameters_change_the_scope(env, others);
        let scope = scope_with_parameters(env.symbol_layouts, parameters);
        assert forall|symbol: u64| #[trigger] scope.contains_key(symbol)
            <==> env.symbol_layouts.contains_key(symbol) || exists|i: int|
            0 <= i < parameters.len() && (#[trigger] parameters[i]).symbol.bits == symbol by {
            if exists|i: int|
                0 <= i < others.len() && (#[trigger] others[i]).symbol.bits == symbol {
                let i = choose|i: int|
                    0 <= i < others.len() && (#[trigger] others[i]).symbol.bits == symbol;
                assert(parameters[i].symbol.bits == symbol);
            }
            if exists|i: int|
                0 <= i < parameters.len() && (#[trigger] parameters[i]).symbol.bits == symbol {
                let i = choose|i: int|
                    0 <= i < parameters.len() && (#[trigger] parameters[i]).symbol.bits == symbol;
                if i < last {
                    assert(others[i].symbol.bits == symbol);
                }
            }
            if parameters[last].symbol.bits == symbol {
                assert(scope.contains_key(symbol));
            }
        }
        assert forall|symbol: u64|
            (forall|i: int|
                0 <= i < parameters.len() ==> (#[trigger] parameters[i]).symbol.bits
                    != symbol) implies #[trigger] scope[symbol] == env.symbol_layouts[symbol] by {
            assert(parameters[last].symbol.bits != symbol);
            assert forall|i: int| 0 <= i < others.len() implies (
            #[trigger] others[i]).symbol.bits != symbol by {
                assert(parameters[i].symbol.bits != symbol);
            }
        }
    }
}

proof fn a_new_item_keeps_items_distinct(items: Seq<u64>, at: int, item: u64)
    requires
        items.no_duplicates(),
        !items.contains(item),
        0 <= at <= items.len(),
    ensures
        items.insert(at, item).no_duplicates(),
        forall|i: int|
            0 <= i < items.insert(at, item).len() ==> {
                let found = #[trigger] items.insert(at, item)[i];
                found == item || items.contains(found)
            },
{
    let now = items.insert(at, item);
    assert forall|i: int| 0 <= i < now.len() implies (i == at && #[trigger] now[i] == item) || (i
        < at && now[i] == items[i]) || (i > at && now[i] == items[i - 1]) by {}
    assert forall|i: int, j: int| 0 <= i < now.len() && 0 <= j < now.len() && i != j implies now[i]
        != now[j] by {
        assert(items.contains(item) == false);
    }
}

proof fn distinct_with_one_more(
    interner: Seq<LayoutEntry<'_>>,
    weights: Weights,
    env: EnvironmentView,
    after: EnvironmentView,
    parent: Symbol,
    child: Symbol,
    at: int,
)
    requires
        fits_children(weights, interner, env, parent),
        !env.children_of(parent).contains(child.bits),
        env.symbol_layouts.contains_key(child.bits),
        after.symbol_layouts == env.symbol_layouts,
        0 <= at <= env.children_of(parent).len(),
        after.children_of(parent) == env.children_of(parent).insert(at, child.bits),
    ensures
        after.children_of(parent).no_duplicates(),
        forall|i: int|
            0 <= i < after.children_of(parent).len() ==> after.symbol_layouts.contains_key(
                #[trigger] after.children_of(parent)[i],
            ),
{
    let before = env.children_of(parent);
    a_new_item_keeps_items_distinct(before, at, child.bits);
    assert forall|i: int|
        0 <= i < after.children_of(parent).len() implies after.symbol_layouts.contains_key(
        #[trigger] after.children_of(parent)[i],
    ) by {
        let found = before.insert(at, child.bits)[i];
        if found != child.bits {
            let j = before.index_of(found);
            assert(before.contains(found));
            assert(env.symbol_layouts.contains_key(before[j]));
        }
    }
}

/// What an environment must know for a new child to fit.
spec fn can_take_child(
    weights: Weights,
    interner: Seq<LayoutEntry<'_>>,
    count: nat,
    env: EnvironmentView,
    parent: Symbol,
    child: Symbol,
) -> bool {
    &&& fits_env(weights, interner, count, env)
    &&& env.symbol_layouts.contains_key(parent.bits)
    &&& env.symbol_layouts.contains_key(child.bits)
    &&& !env.children_of(parent).contains(child.bits)
}

proof fn fits_a_struct_child(
    weights: Weights,
    interner: Seq<LayoutEntry<'_>>,
    count: nat,
    env: EnvironmentView,
    child: Symbol,
    structure: Symbol,
    index: Index,
)
    requires
        can_take_child(weights, interner, count, env, structure, child),
        (weights.symbol)(child.bits) == (weights.field)(structure.bits, index as int),
        !is_boxed(interner, env.symbol_layouts, structure.bits),
    ensures
        fits_env(weights, interner, count, env.with_struct_child(structure, child, index)),
{
    let after = env.with_struct_child(structure, child, index);
    assert forall|s: Symbol| #[trigger] fits_children(weights, interner, after, s) by {
        assert(fits_children(weights, interner, env, s));
        let field = |child: (Child, Index)| child.0;
        let first = env.struct_children_of(s).map_values(field);
        if s.bits == structure.bits {
            assert(env.struct_children_of(s).push((child.bits, index)).map_values(field)
                =~= first.push(child.bits));
            let at = first.len() as int;
            assert(after.children_of(s) =~= env.children_of(s).insert(at, child.bits));
            distinct_with_one_more(interner, weights, env, after, s, child, at);
        } else {
            assert(after.children_of(s) == env.children_of(s));
        }
    }
}

proof fn fits_a_union_child(
    weights: Weights,
    interner: Seq<LayoutEntry<'_>>,
    count: nat,
    env: EnvironmentView,
    child: Symbol,
    structure: Symbol,
    tag: u16,
    index: Index,
)
    requires
        can_take_child(weights, interner, count, env, structure, child),
        !is_boxed(interner, env.symbol_layouts, structure.bits),
    ensures
        fits_env(weights, interner, count, env.with_union_child(structure, child, tag, index)),
{
    let after = env.with_union_child(structure, child, tag, index);
    assert forall|s: Symbol| #[trigger] fits_children(weights, interner, after, s) by {
        assert(fits_children(weights, interner, env, s));
        let field = |child: (Child, u16, Index)| child.0;
        let first = env.struct_children_of(s).map_values(|child: (Child, Index)| child.0);
        let second = env.union_children_of(s).map_values(field);
        if s.bits == structure.bits {
            assert(env.union_children_of(s).push((child.bits, tag, index)).map_values(field)
                =~= second.push(child.bits));
            let at = (first.len() + second.len()) as int;
            assert(after.children_of(s) =~= env.children_of(s).insert(at, child.bits));
            distinct_with_one_more(interner, weights, env, after, s, child, at);
        } else {
            assert(after.children_of(s) == env.children_of(s));
        }
    }
}

proof fn fits_a_box_child(
    weights: Weights,
    interner: Seq<LayoutEntry<'_>>,
    count: nat,
    env: EnvironmentView,
    child: Symbol,
    boxed: Symbol,
)
    requires
        can_take_child(weights, interner, count, env, boxed, child),
        (weights.symbol)(boxed.bits) == (weights.cell)(boxed.bits) + (weights.symbol)(child.bits),
    ensures
        fits_env(weights, interner, count, env.with_box_child(boxed, child)),
{
    let after = env.with_box_child(boxed, child);
    assert forall|s: Symbol| #[trigger] fits_children(weights, interner, after, s) by {
        assert(fits_children(weights, interner, env, s));
        if s.bits == boxed.bits {
            let at = env.children_of(s).len() as int;
            assert(after.children_of(s) =~= env.children_of(s).insert(at, child.bits));
            distinct_with_one_more(interner, weights, env, after, s, child, at);
        } else {
            assert(after.children_of(s) == env.children_of(s));
        }
    }
}

proof fn fits_after_binding(
    weights: Weights,
    interner: Seq<LayoutEntry<'_>>,
    count: nat,
    env: EnvironmentView,
    binding: Symbol,
    expr: Expr<'_>,
    layout: InLayout,
)
    requires
        fits_env(weights, interner, count, env),
        !env.symbol_layouts.contains_key(binding.bits),
        !is_newer(env.home, count, binding),
        is_scoped_expr(interner, env.symbol_layouts, expr),
        fits_struct(
            weights.after_binding(binding, expr),
            interner,
            env.symbol_layouts.insert(binding.bits, layout),
            binding.bits,
        ),
    ensures
        fits_env(
            weights.after_binding(binding, expr),
            interner,
            count,
            env_after_binding(env, binding, expr, layout),
        ),
{
    let after = weights.after_binding(binding, expr);
    let named = env.with_symbol_layout(binding, layout);
    fits_a_new_symbol(weights, interner, count, env, binding, layout, after);
    let parent = match expr {
        Expr::StructAtIndex { structure, .. } => structure,
        Expr::UnionAtIndex { structure, .. } => structure,
        Expr::ExprUnbox { symbol } => symbol,
        _ => binding,
    };
    assert(fits_children(weights, interner, env, parent));
    assert(named.children_of(parent) == env.children_of(parent));
    assert(!named.children_of(parent).contains(binding.bits));
    match expr {
        Expr::StructAtIndex { index, structure, .. } => {
            fits_a_struct_child(after, interner, count, named, binding, structure, index);
        },
        Expr::UnionAtIndex { structure, tag_id, index, .. } => {
            fits_a_union_child(after, interner, count, named, binding, structure, tag_id, index);
        },
        Expr::ExprUnbox { symbol } => {
            fits_a_box_child(after, interner, count, named, binding, symbol);
        },
        _ => {},
    }
}

/// Whether the worth of a symbol matters to a statement.
spec fn counts(stmt: Stmt<'_>, symbol: u64) -> bool
    decreases stmt,
{
    match stmt {
        Stmt::Let(_, expr, _, continuation) => (expr matches Expr::ExprUnbox { symbol: boxed }
            && boxed.bits == symbol) || counts(*continuation, symbol),
        Stmt::Switch { branches, default_branch, .. } => counts_in_branches(*branches, symbol)
            || counts(*default_branch.1, symbol),
        Stmt::Refcounting(rc, continuation) => counted(rc).bits == symbol || counts(
            *continuation,
            symbol,
        ),
        Stmt::Expect { remainder, .. } => counts(*remainder, symbol),
        Stmt::ExpectFx { remainder, .. } => counts(*remainder, symbol),
        Stmt::Dbg { remainder, .. } => counts(*remainder, symbol),
        Stmt::Join { body, remainder, .. } => counts(*body, symbol) || counts(*remainder, symbol),
        Stmt::Ret(_) | Stmt::Jump(_, _) | Stmt::Crash(_, _) => false,
    }
}

spec fn counts_in_branches(branches: Branches<'_>, symbol: u64) -> bool
    decreases branches,
{
    match branches {
        Branches::Nil => false,
        Branches::Cons { branch, rest, .. } => counts(*branch, symbol) || counts_in_branches(
            *rest,
            symbol,
        ),
    }
}

proof fn weights_change_independently(
    weights: Weights,
    symbol: Symbol,
    worth: int,
    binding: Symbol,
    expr: Expr<'_>,
)
    requires
        !(expr matches Expr::ExprUnbox { symbol: boxed } && boxed.bits == symbol.bits),
    ensures
        ({
            let changed = weights.with(symbol, worth).after_binding(binding, expr);
            let unchanged = weights.after_binding(binding, expr);
            changed == unchanged || changed == unchanged.with(symbol, worth)
        }),
{
    let changed = weights.with(symbol, worth).after_binding(binding, expr);
    let unchanged = weights.after_binding(binding, expr);
    if binding == symbol && (expr is StructAtIndex || expr is ExprUnbox) {
        assert(changed.symbol =~= unchanged.symbol);
    } else {
        assert(changed.symbol =~= unchanged.with(symbol, worth).symbol);
    }
}

proof fn an_uncounted_worth_is_irrelevant(
    weights: Weights,
    symbol: Symbol,
    worth: int,
    stmt: Stmt<'_>,
    path: Path,
)
    requires
        !counts(stmt, symbol.bits),
    ensures
        net(weights.with(symbol, worth), stmt, path) == net(weights, stmt, path),
    decreases stmt,
{
    match stmt {
        Stmt::Let(binding, expr, _, continuation) => {
            if forgets_increments(expr) {
                if let Path::Go(_, path) = path {
                    an_uncounted_worth_is_irrelevant(weights, symbol, worth, *continuation, *path);
                }
            } else {
                weights_change_independently(weights, symbol, worth, binding, expr);
                an_uncounted_worth_is_irrelevant(
                    weights.after_binding(binding, expr),
                    symbol,
                    worth,
                    *continuation,
                    path,
                );
            }
        },
        Stmt::Switch { branches, default_branch, .. } => {
            if let Path::Go(index, path) = path {
                an_uncounted_worth_is_irrelevant_in_branches(
                    weights,
                    symbol,
                    worth,
                    *branches,
                    index,
                    *path,
                );
                an_uncounted_worth_is_irrelevant(weights, symbol, worth, *default_branch.1, *path);
            }
        },
        Stmt::Refcounting(_, continuation) => {
            an_uncounted_worth_is_irrelevant(weights, symbol, worth, *continuation, path);
        },
        Stmt::Expect { remainder, .. } => {
            an_uncounted_worth_is_irrelevant(weights, symbol, worth, *remainder, path);
        },
        Stmt::ExpectFx { remainder, .. } => {
            an_uncounted_worth_is_irrelevant(weights, symbol, worth, *remainder, path);
        },
        Stmt::Dbg { remainder, .. } => {
            an_uncounted_worth_is_irrelevant(weights, symbol, worth, *remainder, path);
        },
        Stmt::Join { body, remainder, .. } => match path {
            Path::Both { remainder: first, body: then } => {
                an_uncounted_worth_is_irrelevant(weights, symbol, worth, *remainder, *first);
                an_uncounted_worth_is_irrelevant(weights, symbol, worth, *body, *then);
            },
            _ => {
                an_uncounted_worth_is_irrelevant(weights, symbol, worth, *remainder, path);
            },
        },
        Stmt::Ret(_) | Stmt::Jump(_, _) | Stmt::Crash(_, _) => {},
    }
}

proof fn an_uncounted_worth_is_irrelevant_in_branches(
    weights: Weights,
    symbol: Symbol,
    worth: int,
    branches: Branches<'_>,
    index: nat,
    path: Path,
)
    requires
        !counts_in_branches(branches, symbol.bits),
    ensures
        net_of_branch(weights.with(symbol, worth), branches, index, path) == net_of_branch(
            weights,
            branches,
            index,
            path,
        ),
    decreases branches,
{
    if let Branches::Cons { branch, rest, .. } = branches {
        if index == 0 {
            an_uncounted_worth_is_irrelevant(weights, symbol, worth, *branch, path);
        } else {
            an_uncounted_worth_is_irrelevant_in_branches(
                weights,
                symbol,
                worth,
                *rest,
                (index - 1) as nat,
                path,
            );
        }
    }
}

/// Whether a symbol is none of the children that an environment knows.
spec fn is_no_child(env: EnvironmentView, symbol: u64) -> bool {
    forall|parent: Symbol| !(#[trigger] env.children_of(parent)).contains(symbol)
}

proof fn a_struct_child_is_a_child(env: EnvironmentView, parent: Symbol, i: int)
    requires
        0 <= i < env.struct_children_of(parent).len(),
    ensures
        env.children_of(parent).contains(env.struct_children_of(parent)[i].0),
{
    assert(env.children_of(parent)[i] == env.struct_children_of(parent)[i].0);
}

proof fn released_fields_count<'a>(
    interner: Seq<LayoutEntry<'a>>,
    home: ModuleId,
    structure: Symbol,
    field_layouts: &'a [InLayout],
    symbols: Seq<Option<u64>>,
    used: Set<u64>,
    from: nat,
    stmt: Stmt<'a>,
    names: Seq<Seq<char>>,
    symbol: Symbol,
)
    requires
        fields_released(interner, home, structure, field_layouts, symbols, used, from, stmt, names)
            is Some,
        !counts(stmt, symbol.bits),
        forall|i: int|
            from <= i < field_layouts@.len() ==> #[trigger] symbols[i] != Some(symbol.bits),
        !named_between(
            home,
            names,
            (fields_released(
                interner,
                home,
                structure,
                field_layouts,
                symbols,
                used,
                from,
                stmt,
                names,
            )->0).1,
            symbol,
        ),
    ensures
        !counts(
            (fields_released(
                interner,
                home,
                structure,
                field_layouts,
                symbols,
                used,
                from,
                stmt,
                names,
            )->0).0,
            symbol.bits,
        ),
    decreases field_layouts@.len() - from,
{
    if from < field_layouts@.len() {
        let (rest, between) = fields_released(
            interner,
            home,
            structure,
            field_layouts,
            symbols,
            used,
            from + 1,
            stmt,
            names,
        )->0;
        let (released, after) = fields_released(
            interner,
            home,
            structure,
            field_layouts,
            symbols,
            used,
            from,
            stmt,
            names,
        )->0;
        released_fields_keep_the_shape(
            interner,
            home,
            structure,
            field_layouts,
            symbols,
            used,
            from + 1,
            stmt,
            names,
            0,
            symbol,
        );
        released_fields_count(
            interner,
            home,
            structure,
            field_layouts,
            symbols,
            used,
            from + 1,
            stmt,
            names,
            symbol,
        );
        assert(symbols[from as int] != Some(symbol.bits));
        reveal_with_fuel(counts, 3);
        if after != between {
            a_fresh_symbol_is_newer(home, between);
        }
    }
}

pub(crate) proof fn symbols_of_fields_are_children(
    children: Seq<(Child, Index)>,
    count: nat,
    available: Set<u64>,
)
    ensures
        ({
            let symbols = children_of_fields(children, count, available).0;
            &&& symbols.len() == count
            &&& forall|i: int|
                0 <= i < count && (#[trigger] symbols[i]) is Some ==> has_index(
                    children,
                    symbols[i]->0,
                    i,
                )
        }),
    decreases count,
{
    if count > 0 {
        let last = (count - 1) as nat;
        symbols_of_fields_are_children(children, last, available);
        let (before, used) = children_of_fields(children, last, available);
        the_child_of_a_field_is_one(children, last as int, available.difference(used));
        let symbols = children_of_fields(children, count, available).0;
        assert forall|i: int| 0 <= i < count && (#[trigger] symbols[i]) is Some implies has_index(
            children,
            symbols[i]->0,
            i,
        ) by {
            if i < last {
                assert(symbols[i] == before[i]);
            } else {
                let p = choose|p: int|
                    0 <= p < children.len() && #[trigger] children[p] == (
                        symbols[i]->0,
                        last as u64,
                    ) && children[p].1 == last;
                assert(children[p].0 == symbols[i]->0);
            }
        }
    }
}

/// A statement does not become one that counts more symbols, but for children and new ones.
proof fn rewriting_counts<'a>(
    interner: Seq<LayoutEntry<'a>>,
    env: EnvironmentView,
    names: Seq<Seq<char>>,
    stmt: Stmt<'a>,
    symbol: Symbol,
)
    requires
        rewritten(interner, env, names, stmt) is Some,
        !counts(stmt, symbol.bits),
        bindings(stmt, symbol) == 0,
        is_no_child(env, symbol.bits),
        !named_between(
            env.home,
            names,
            (rewritten(interner, env, names, stmt)->0).names,
            symbol,
        ),
    ensures
        !counts((rewritten(interner, env, names, stmt)->0).stmt, symbol.bits),
    decreases stmt,
{
    let after = rewritten(interner, env, names, stmt)->0;
    match stmt {
        Stmt::Let(binding, expr, layout, continuation) => {
            let inner = env_after_binding(env, binding, expr, layout);
            other_bindings_are_no_children(env, binding, expr, layout, symbol);
            if forgets_increments(expr) {
                let cleared = inner.without_incremented();
                assert(is_no_child(cleared, symbol.bits)) by {
                    assert forall|parent: Symbol| !(
                    #[trigger] cleared.children_of(parent)).contains(symbol.bits) by {
                        assert(cleared.children_of(parent) == inner.children_of(parent));
                    }
                }
                rewriting_counts(interner, cleared, names, *continuation, symbol);
            } else {
                rewriting_counts(interner, inner, names, *continuation, symbol);
            }
        },
        Stmt::Switch { branches, default_branch, .. } => {
            let cleared = env.without_incremented();
            same_children(env, cleared, symbol.bits);
            let (_, between) = rewritten_branches(interner, env, names, *branches)->0;
            branches_keep_the_shape(interner, env, names, *branches, 0, symbol);
            rewriting_keeps_the_shape(interner, cleared, between, *default_branch.1, 0, symbol);
            branches_count(interner, env, names, *branches, symbol);
            rewriting_counts(interner, cleared, between, *default_branch.1, symbol);
        },
        Stmt::Ret(_) | Stmt::Jump(_, _) | Stmt::Crash(_, _) => {},
        Stmt::Refcounting(rc, continuation) => match rc {
            ModifyRc::Inc(s, n) => {
                let inner = env.with_increments(
                    increments_added(env.incremented_symbols, s.bits, n),
                );
                same_children(env, inner, symbol.bits);
                rewriting_counts(interner, inner, names, *continuation, symbol);
            },
            ModifyRc::Dec(s) => {
                let (inner, plan, restored) = dec_prepared(interner, env, s)->0;
                let between = rewritten(interner, inner, names, *continuation)->0;
                same_children(env, inner, symbol.bits);
                assert(Some(after) == dec_finished(interner, s, plan, restored, between));
                rewriting_keeps_the_shape(interner, inner, names, *continuation, 0, symbol);
                if let DecPlan::Fields { field_layouts, symbols, used } = plan {
                    released_fields_keep_the_shape(
                        interner,
                        env.home,
                        s,
                        field_layouts,
                        symbols,
                        used,
                        0,
                        between.stmt,
                        between.names,
                        0,
                        symbol,
                    );
                    rewriting_counts(interner, inner, names, *continuation, symbol);
                    let (_, incremented) = increments_popped(
                        env.incremented_symbols,
                        env.children_of(s),
                    )->0;
                    let children = env.struct_children_of(s);
                    symbols_of_fields_are_children(children, field_layouts@.len(), incremented);
                    assert forall|i: int|
                        0 <= i < field_layouts@.len() implies #[trigger] symbols[i] != Some(
                        symbol.bits,
                    ) by {
                        if symbols[i] is Some {
                            let p = choose|p: int|
                                0 <= p < children.len() && #[trigger] children[p].0
                                    == symbols[i]->0 && children[p].1 == i;
                            a_struct_child_is_a_child(env, s, p);
                        }
                    }
                    released_fields_count(
                        interner,
                        env.home,
                        s,
                        field_layouts,
                        symbols,
                        used,
                        0,
                        between.stmt,
                        between.names,
                        symbol,
                    );
                } else {
                    rewriting_counts(interner, inner, names, *continuation, symbol);
                }
            },
            ModifyRc::DecRef(_) => {
                rewriting_counts(interner, env, names, *continuation, symbol);
            },
        },
        Stmt::Expect { remainder, .. } => {
            rewriting_counts(interner, env, names, *remainder, symbol);
        },
        Stmt::ExpectFx { remainder, .. } => {
            rewriting_counts(interner, env, names, *remainder, symbol);
        },
        Stmt::Dbg { remainder, .. } => {
            rewriting_counts(interner, env, names, *remainder, symbol);
        },
        Stmt::Join { parameters, body, remainder, .. } => {
            let cleared = env.without_incremented();
            let inside = env_with_parameters(cleared, parameters@);
            parameters_change_the_scope(cleared, parameters@);
            same_children(env, inside, symbol.bits);
            let between = (rewritten(interner, inside, names, *body)->0).names;
            rewriting_keeps_the_shape(interner, inside, names, *body, 0, symbol);
            rewriting_keeps_the_shape(interner, env, between, *remainder, 0, symbol);
            rewriting_counts(interner, inside, names, *body, symbol);
            rewriting_counts(interner, env, between, *remainder, symbol);
        },
    }
}

proof fn same_children(env: EnvironmentView, other: EnvironmentView, symbol: u64)
    requires
        is_no_child(env, symbol),
        other.struct_children == env.struct_children,
        other.union_children == env.union_children,
        other.box_children == env.box_children,
    ensures
        is_no_child(other, symbol),
{
    assert forall|parent: Symbol| !(#[trigger] other.children_of(parent)).contains(symbol) by {
        assert(other.children_of(parent) == env.children_of(parent));
    }
}

proof fn other_bindings_are_no_children(
    env: EnvironmentView,
    binding: Symbol,
    expr: Expr<'_>,
    layout: InLayout,
    symbol: Symbol,
)
    requires
        is_no_child(env, symbol.bits),
        binding != symbol,
    ensures
        is_no_child(env_after_binding(env, binding, expr, layout), symbol.bits),
{
    let after = env_after_binding(env, binding, expr, layout);
    assert forall|parent: Symbol| !(#[trigger] after.children_of(parent)).contains(symbol.bits) by {
        let before = env.children_of(parent);
        let now = after.children_of(parent);
        assert(!before.contains(symbol.bits));
        let first = env.struct_children_of(parent);
        let second = env.union_children_of(parent);
        let third = env.box_children_of(parent);
        if now.contains(symbol.bits) {
            let i = now.index_of(symbol.bits);
            let new_first = after.struct_children_of(parent);
            let new_second = after.union_children_of(parent);
            let new_third = after.box_children_of(parent);
            if i < new_first.len() {
                assert(new_first[i].0 == symbol.bits);
                assert(new_first[i] == first[i]);
                assert(before[i] == symbol.bits);
            } else if i < new_first.len() + new_second.len() {
                let j = i - new_first.len();
                assert(new_second[j].0 == symbol.bits);
                assert(new_second[j] == second[j]);
                assert(before[first.len() + j] == symbol.bits);
            } else {
                let j = i - new_first.len() - new_second.len();
                assert(new_third[j] == symbol.bits);
                assert(new_third[j] == third[j]);
                assert(before[first.len() + second.len() + j] == symbol.bits);
            }
        }
    }
}

proof fn branches_count<'a>(
    interner: Seq<LayoutEntry<'a>>,
    env: EnvironmentView,
    names: Seq<Seq<char>>,
    branches: Branches<'a>,
    symbol: Symbol,
)
    requires
        rewritten_branches(interner, env, names, branches) is Some,
        !counts_in_branches(branches, symbol.bits),
        bindings_in_branches(branches, symbol) == 0,
        is_no_child(env, symbol.bits),
        !named_between(
            env.home,
            names,
            (rewritten_branches(interner, env, names, branches)->0).1,
            symbol,
        ),
    ensures
        !counts_in_branches(
            (rewritten_branches(interner, env, names, branches)->0).0,
            symbol.bits,
        ),
    decreases branches,
{
    if let Branches::Cons { branch, rest, .. } = branches {
        let cleared = env.without_incremented();
        same_children(env, cleared, symbol.bits);
        let between = (rewritten(interner, cleared, names, *branch)->0).names;
        rewriting_keeps_the_shape(interner, cleared, names, *branch, 0, symbol);
        branches_keep_the_shape(interner, env, between, *rest, 0, symbol);
        rewriting_counts(interner, cleared, names, *branch, symbol);
        branches_count(interner, env, between, *rest, symbol);
    }
}

/// A statement in a scope counts and binds no symbol that the home module has no name for.
proof fn newer_symbols_do_not_occur(
    interner: Seq<LayoutEntry<'_>>,
    home: ModuleId,
    count: nat,
    scope: Map<u64, InLayout>,
    stmt: Stmt<'_>,
    symbol: Symbol,
)
    requires
        is_newer(home, count, symbol),
        !scope.contains_key(symbol.bits),
        is_scoped(interner, home, count, scope, stmt),
    ensures
        !counts(stmt, symbol.bits),
        bindings(stmt, symbol) == 0,
    decreases stmt,
{
    match stmt {
        Stmt::Let(binding, _, layout, continuation) => {
            newer_symbols_do_not_occur(
                interner,
                home,
                count,
                scope.insert(binding.bits, layout),
                *continuation,
                symbol,
            );
        },
        Stmt::Switch { branches, default_branch, .. } => {
            newer_symbols_do_not_occur_in_branches(
                interner,
                home,
                count,
                scope,
                *branches,
                symbol,
            );
            newer_symbols_do_not_occur(interner, home, count, scope, *default_branch.1, symbol);
        },
        Stmt::Refcounting(_, continuation) => {
            newer_symbols_do_not_occur(interner, home, count, scope, *continuation, symbol);
        },
        Stmt::Expect { remainder, .. } => {
            newer_symbols_do_not_occur(interner, home, count, scope, *remainder, symbol);
        },
        Stmt::ExpectFx { remainder, .. } => {
            newer_symbols_do_not_occur(interner, home, count, scope, *remainder, symbol);
        },
        Stmt::Dbg { remainder, .. } => {
            newer_symbols_do_not_occur(interner, home, count, scope, *remainder, symbol);
        },
        Stmt::Join { parameters, body, remainder, .. } => {
            let inside = scope_with_parameters(scope, parameters@);
            parameters_change_the_scope(
                EnvironmentView { symbol_layouts: scope, ..EnvironmentView::empty(home) },
                parameters@,
            );
            if inside.contains_key(symbol.bits) {
                let i = choose|i: int|
                    0 <= i < parameters@.len() && (#[trigger] parameters@[i]).symbol.bits
                        == symbol.bits;
                assert(parameters@[i].symbol == symbol);
            }
            newer_symbols_do_not_occur(interner, home, count, inside, *body, symbol);
            newer_symbols_do_not_occur(interner, home, count, scope, *remainder, symbol);
        },
        Stmt::Ret(_) | Stmt::Jump(_, _) | Stmt::Crash(_, _) => {},
    }
}

proof fn newer_symbols_do_not_occur_in_branches(
    interner: Seq<LayoutEntry<'_>>,
    home: ModuleId,
    count: nat,
    scope: Map<u64, InLayout>,
    branches: Branches<'_>,
    symbol: Symbol,
)
    requires
        is_newer(home, count, symbol),
        !scope.contains_key(symbol.bits),
        are_scoped(interner, home, count, scope, branches),
    ensures
        !counts_in_branches(branches, symbol.bits),
        bindings_in_branches(branches, symbol) == 0,
    decreases branches,
{
    if let Branches::Cons { branch, rest, .. } = branches {
        newer_symbols_do_not_occur(interner, home, count, scope, *branch, symbol);
        newer_symbols_do_not_occur_in_branches(interner, home, count, scope, *rest, symbol);
    }
}

proof fn sum_to_the_next(f: spec_fn(int) -> int, from: int, to: int)
    requires
        from <= to,
    ensures
        sum(f, from, to + 1) == sum(f, from, to) + f(to),
    decreases to - from,
{
    reveal_with_fuel(sum, 2);
    if from < to {
        sum_to_the_next(f, from + 1, to);
    }
}

proof fn sum_depends_on_range(
    f: spec_fn(int) -> int,
    g: spec_fn(int) -> int,
    from: int,
    to: int,
)
    requires
        forall|i: int| from <= i < to ==> #[trigger] f(i) == g(i),
    ensures
        sum(f, from, to) == sum(g, from, to),
    decreases to - from,
{
    if from < to {
        assert(f(from) == g(from));
        sum_depends_on_range(f, g, from + 1, to);
    }
}

proof fn sum_of_two(
    f: spec_fn(int) -> int,
    g: spec_fn(int) -> int,
    h: spec_fn(int) -> int,
    from: int,
    to: int,
)
    requires
        forall|i: int| from <= i < to ==> #[trigger] f(i) == g(i) + h(i),
    ensures
        sum(f, from, to) == sum(g, from, to) + sum(h, from, to),
    decreases to - from,
{
    if from < to {
        assert(f(from) == g(from) + h(from));
        sum_of_two(f, g, h, from + 1, to);
    }
}

proof fn the_child_of_a_field_is_one(
    children: Seq<(Child, Index)>,
    index: int,
    available: Set<u64>,
)
    ensures
        ({
            let (symbol, uses) = child_of_field(children, index, available);
            &&& symbol is Some ==> exists|i: int|
                0 <= i < children.len() && #[trigger] children[i] == (symbol->0, index as u64)
                    && children[i].1 == index
            &&& uses ==> symbol is Some && available.contains(symbol->0)
        }),
    decreases children.len(),
{
    if children.len() > 0 {
        let others = children.drop_last();
        the_child_of_a_field_is_one(others, index, available);
        let (before, uses) = child_of_field(others, index, available);
        if uses || children.last().1 != index {
            if before is Some {
                let i = choose|i: int|
                    0 <= i < others.len() && #[trigger] others[i] == (before->0, index as u64)
                        && others[i].1 == index;
                assert(children[i] == (before->0, index as u64));
            }
        } else {
            assert(children[children.len() - 1] == children.last());
        }
    }
}

/// Whether an increment of the symbol of a field is used up.
pub open spec fn is_used(symbols: Seq<Option<u64>>, used: Set<u64>, i: int) -> bool {
    symbols[i] is Some && used.contains(symbols[i]->0)
}

spec fn used_worth(
    weights: Weights,
    structure: u64,
    symbols: Seq<Option<u64>>,
    used: Set<u64>,
) -> spec_fn(int) -> int {
    |i: int|
        if is_used(symbols, used, i) {
            (weights.field)(structure, i)
        } else {
            0
        }
}

/// Whether a symbol is a child of a field.
pub open spec fn has_index(children: Seq<(Child, Index)>, symbol: u64, i: int) -> bool {
    exists|p: int|
        0 <= p < children.len() && #[trigger] children[p].0 == symbol && children[p].1 == i
}

proof fn a_child_has_one_index(children: Seq<(Child, Index)>, symbol: u64, i: int, j: int)
    requires
        children.map_values(|child: (Child, Index)| child.0).no_duplicates(),
        has_index(children, symbol, i),
        has_index(children, symbol, j),
    ensures
        i == j,
{
    let all = children.map_values(|child: (Child, Index)| child.0);
    let p = choose|p: int|
        0 <= p < children.len() && #[trigger] children[p].0 == symbol && children[p].1 == i;
    let q = choose|q: int|
        0 <= q < children.len() && #[trigger] children[q].0 == symbol && children[q].1 == j;
    assert(all[p] == symbol && all[q] == symbol);
}

proof fn used_children_weigh_their_fields(
    weights: Weights,
    structure: u64,
    children: Seq<(Child, Index)>,
    count: nat,
    available: Set<u64>,
)
    requires
        available.finite(),
        children.map_values(|child: (Child, Index)| child.0).no_duplicates(),
        forall|i: int|
            0 <= i < children.len() ==> (weights.symbol)((#[trigger] children[i]).0) == (
            weights.field)(structure, children[i].1 as int),
    ensures
        ({
            let (symbols, used) = children_of_fields(children, count, available);
            &&& used.subset_of(available)
            &&& used.finite()
            &&& forall|symbol: u64| #[trigger]
                used.contains(symbol) ==> exists|i: int|
                    0 <= i < count && has_index(children, symbol, i)
            &&& total(used, weights.symbol) == sum(
                used_worth(weights, structure, symbols, used),
                0,
                count as int,
            )
        }),
    decreases count,
{
    if count > 0 {
        let last = (count - 1) as nat;
        used_children_weigh_their_fields(weights, structure, children, last, available);
        symbols_of_fields_are_children(children, last, available);
        symbols_of_fields_are_children(children, count, available);
        let (before, used_before) = children_of_fields(children, last, available);
        let (symbols, used) = children_of_fields(children, count, available);
        let unused = available.difference(used_before);
        let (symbol, uses) = child_of_field(children, last as int, unused);
        the_child_of_a_field_is_one(children, last as int, unused);
        assert(symbols == before.push(symbol));
        if symbol is Some {
            assert(symbols[last as int] == symbol);
            assert(has_index(children, symbol->0, last as int));
            assert((weights.symbol)(symbol->0) == (weights.field)(structure, last as int));
            if used_before.contains(symbol->0) {
                let j = choose|j: int| 0 <= j < last && has_index(children, symbol->0, j);
                a_child_has_one_index(children, symbol->0, j, last as int);
            }
        }
        let f = used_worth(weights, structure, before, used_before);
        let g = used_worth(weights, structure, symbols, used);
        assert forall|i: int| 0 <= i < last implies #[trigger] f(i) == g(i) by {
            assert(symbols[i] == before[i]);
            if before[i] is Some && uses && before[i]->0 == symbol->0 {
                a_child_has_one_index(children, symbol->0, i, last as int);
            }
        }
        sum_depends_on_range(f, g, 0, last as int);
        sum_to_the_next(g, 0, last as int);
        if uses {
            total_with(used_before, weights.symbol, symbol->0);
        }
        assert forall|c: u64| #[trigger] used.contains(c) implies exists|i: int| 0 <= i < count
            && has_index(children, c, i) by {
            if used_before.contains(c) {
                let i = choose|i: int| 0 <= i < last && has_index(children, c, i);
                assert(has_index(children, c, i));
            } else {
                assert(has_index(children, c, last as int));
            }
        }
    } else {
        assert(Set::<u64>::empty().len() == 0);
    }
}

proof fn the_first_is_in(symbols: Seq<u64>, set: Set<u64>)
    requires
        first_in(symbols, set) is Some,
    ensures
        set.contains(first_in(symbols, set)->0),
        symbols.contains(first_in(symbols, set)->0),
    decreases symbols.len(),
{
    if symbols.len() > 0 {
        let others = symbols.drop_last();
        if first_in(others, set) is Some {
            the_first_is_in(others, set);
            let i = others.index_of(first_in(others, set)->0);
            assert(symbols[i] == first_in(others, set)->0);
        } else {
            assert(symbols[symbols.len() - 1] == symbols.last());
        }
    }
}

/// What releasing a field takes away.
spec fn released_worth<'a>(
    weights: Weights,
    interner: Seq<LayoutEntry<'a>>,
    structure: u64,
    field_layouts: &'a [InLayout],
    symbols: Seq<Option<u64>>,
    used: Set<u64>,
) -> spec_fn(int) -> int {
    |i: int|
        if interner[field_layouts@[i].0 as int].contains_refcounted && !is_used(symbols, used, i) {
            (weights.field)(structure, i)
        } else {
            0
        }
}

proof fn released_fields_are_worth<'a>(
    weights: Weights,
    path: Path,
    interner: Seq<LayoutEntry<'a>>,
    home: ModuleId,
    structure: Symbol,
    field_layouts: &'a [InLayout],
    symbols: Seq<Option<u64>>,
    used: Set<u64>,
    from: nat,
    stmt: Stmt<'a>,
    names: Seq<Seq<char>>,
)
    requires
        fields_released(interner, home, structure, field_layouts, symbols, used, from, stmt, names)
            is Some,
        from <= field_layouts@.len(),
        symbols.len() == field_layouts@.len(),
        forall|i: int|
            0 <= i < symbols.len() && (#[trigger] symbols[i]) is Some ==> (weights.symbol)(
                symbols[i]->0,
            ) == (weights.field)(structure.bits, i) && !is_newer(
                home,
                names.len(),
                Symbol { bits: symbols[i]->0 },
            ),
        forall|symbol: Symbol| #[trigger]
            is_newer(home, names.len(), symbol) ==> !counts(stmt, symbol.bits),
    ensures
        forall|i: int|
            from <= i < field_layouts@.len() ==> (#[trigger] field_layouts@[i]).0 < interner.len(),
        net(
            weights,
            (fields_released(
                interner,
                home,
                structure,
                field_layouts,
                symbols,
                used,
                from,
                stmt,
                names,
            )->0).0,
            path,
        ) == net(weights, stmt, path) - sum(
            released_worth(weights, interner, structure.bits, field_layouts, symbols, used),
            from as int,
            field_layouts@.len() as int,
        ),
    decreases field_layouts@.len() - from,
{
    if from < field_layouts@.len() {
        let (rest, between) = fields_released(
            interner,
            home,
            structure,
            field_layouts,
            symbols,
            used,
            from + 1,
            stmt,
            names,
        )->0;
        let (released, after) = fields_released(
            interner,
            home,
            structure,
            field_layouts,
            symbols,
            used,
            from,
            stmt,
            names,
        )->0;
        released_fields_are_worth(
            weights,
            path,
            interner,
            home,
            structure,
            field_layouts,
            symbols,
            used,
            from + 1,
            stmt,
            names,
        );
        assert(field_layouts.len() == field_layouts@.len());
        assert(from as u64 == from);
        if after != between {
            let fresh = fresh_symbol(home, between);
            a_fresh_symbol_is_newer(home, between);
            released_fields_keep_the_shape(
                interner,
                home,
                structure,
                field_layouts,
                symbols,
                used,
                from + 1,
                stmt,
                names,
                0,
                fresh,
            );
            assert(is_newer(home, names.len(), fresh));
            assert forall|i: int|
                from + 1 <= i < field_layouts@.len() implies #[trigger] symbols[i] != Some(
                fresh.bits,
            ) by {
                if symbols[i] == Some(fresh.bits) {
                    assert(Symbol { bits: symbols[i]->0 } == fresh);
                }
            }
            released_fields_count(
                interner,
                home,
                structure,
                field_layouts,
                symbols,
                used,
                from + 1,
                stmt,
                names,
                fresh,
            );
            let worth = (weights.field)(structure.bits, from as int);
            an_uncounted_worth_is_irrelevant(weights, fresh, worth, rest, path);
            reveal_with_fuel(net, 3);
        }
    }
}

/// What a plan takes away, together with the increments that it uses up, is one count of the
/// symbol.
proof fn a_plan_is_worth_a_decrement<'a>(
    weights: Weights,
    path: Path,
    interner: Seq<LayoutEntry<'a>>,
    count: nat,
    env: EnvironmentView,
    symbol: Symbol,
    incremented: Set<u64>,
    plan: DecPlan<'a>,
    stmt: Stmt<'a>,
    names: Seq<Seq<char>>,
)
    requires
        fits_env(weights, interner, count, env),
        count <= names.len(),
        incremented.finite(),
        dec_plan(interner, env, symbol, incremented) == Some(plan),
        plan_applied(interner, env.home, symbol, plan, stmt, names) is Some,
        forall|s: Symbol| #[trigger]
            is_newer(env.home, names.len(), s) ==> !counts(stmt, s.bits),
    ensures
        plan.used().subset_of(incremented),
        net(weights, (plan_applied(interner, env.home, symbol, plan, stmt, names)->0).0, path)
            - total(plan.used(), weights.symbol) == net(weights, stmt, path) - (weights.symbol)(
            symbol.bits,
        ),
{
    assert(fits_children(weights, interner, env, symbol));
    assert(fits_struct(weights, interner, env.symbol_layouts, symbol.bits));
    match plan {
        DecPlan::Fields { field_layouts, symbols, used } => {
            let children = env.struct_children_of(symbol);
            let all = env.children_of(symbol);
            let first = children.map_values(|child: (Child, Index)| child.0);
            assert(first.no_duplicates()) by {
                assert forall|i: int, j: int|
                    0 <= i < first.len() && 0 <= j < first.len() && i != j implies first[i]
                    != first[j] by {
                    assert(all[i] == first[i] && all[j] == first[j]);
                }
            }
            used_children_weigh_their_fields(
                weights,
                symbol.bits,
                children,
                field_layouts@.len(),
                incremented,
            );
            symbols_of_fields_are_children(children, field_layouts@.len(), incremented);
            assert forall|i: int|
                0 <= i < symbols.len() && (#[trigger] symbols[i]) is Some implies (weights.symbol)(
                symbols[i]->0,
            ) == (weights.field)(symbol.bits, i) && !is_newer(
                env.home,
                names.len(),
                Symbol { bits: symbols[i]->0 },
            ) by {
                assert(has_index(children, symbols[i]->0, i));
                let p = choose|p: int|
                    0 <= p < children.len() && #[trigger] children[p].0 == symbols[i]->0
                        && children[p].1 == i;
                assert((weights.symbol)(children[p].0) == (weights.field)(
                    symbol.bits,
                    children[p].1 as int,
                ));
                assert(all[p] == children[p].0);
                assert(!is_newer(env.home, count, Symbol { bits: symbols[i]->0 }));
            }
            released_fields_are_worth(
                weights,
                path,
                interner,
                env.home,
                symbol,
                field_layouts,
                symbols,
                used,
                0,
                stmt,
                names,
            );
            let f = field_worth(weights, symbol.bits);
            let g = released_worth(weights, interner, symbol.bits, field_layouts, symbols, used);
            let h = used_worth(weights, symbol.bits, symbols, used);
            assert forall|i: int| 0 <= i < field_layouts@.len() implies #[trigger] f(i) == g(i) + h(
                i,
            ) by {
                assert(field_layouts@[i].0 < interner.len());
            }
            sum_of_two(f, g, h, 0, field_layouts@.len() as int);
        },
        DecPlan::Release { child } => {
            the_first_is_in(env.children_of(symbol), incremented);
            let all = env.children_of(symbol);
            let i = all.index_of(child);
            assert(all =~= env.box_children_of(symbol));
            assert(env.box_children_of(symbol)[i] == child);
            total_with(Set::empty(), weights.symbol, child);
            assert(Set::<u64>::empty().len() == 0);
        },
        _ => {
            assert(Set::<u64>::empty().len() == 0);
        },
    }
}

proof fn pending_of_others(
    increments: Map<u64, u64>,
    weights: Weights,
    binding: Symbol,
    expr: Expr<'_>,
)
    requires
        increments.dom().finite(),
        !increments.contains_key(binding.bits),
    ensures
        pending(increments, weights.after_binding(binding, expr).symbol) == pending(
            increments,
            weights.symbol,
        ),
{
    total_depends_on_members(
        increments.dom(),
        weighed(increments, weights.after_binding(binding, expr).symbol),
        weighed(increments, weights.symbol),
    );
}

/// On every way through a statement, counting is worth the same before and after rewriting: what
/// the statement counts and what was outstanding before it add up to what the rewritten statement
/// counts and what is outstanding after it. As a way may stop at any call and any switch, no count
/// is moved past one.
pub proof fn rewriting_keeps_the_balance<'a>(
    weights: Weights,
    path: Path,
    count: nat,
    interner: Seq<LayoutEntry<'a>>,
    env: EnvironmentView,
    names: Seq<Seq<char>>,
    stmt: Stmt<'a>,
)
    requires
        rewritten(interner, env, names, stmt) is Some,
        count <= names.len(),
        fits_env(weights, interner, count, env),
        is_scoped(interner, env.home, count, env.symbol_layouts, stmt),
        fits(weights, interner, env.symbol_layouts, stmt),
    ensures
        ({
            let after = rewritten(interner, env, names, stmt)->0;
            net(weights, after.stmt, path) + pending(
                after.env.incremented_symbols,
                weights.symbol,
            ) == net(weights, stmt, path) + pending(env.incremented_symbols, weights.symbol)
        }),
    decreases stmt, 0nat,
{
    let after = rewritten(interner, env, names, stmt)->0;
    match stmt {
        Stmt::Let(binding, expr, layout, continuation) => {
            let inner = env_after_binding(env, binding, expr, layout);
            let bound = weights.after_binding(binding, expr);
            fits_after_binding(weights, interner, count, env, binding, expr, layout);
            assert(inner.symbol_layouts == env.symbol_layouts.insert(binding.bits, layout));
            if forgets_increments(expr) {
                if let Path::Go(_, path) = path {
                    branch_keeps_the_balance(
                        weights,
                        *path,
                        count,
                        interner,
                        inner,
                        names,
                        *continuation,
                    );
                }
            } else {
                rewriting_keeps_the_balance(
                    bound,
                    path,
                    count,
                    interner,
                    inner,
                    names,
                    *continuation,
                );
                increments_are_performed(interner, inner, names, *continuation);
                let left = after.env.incremented_symbols;
                assert(left.dom() =~= left.dom().intersect(env.incremented_symbols.dom()));
                pending_of_others(env.incremented_symbols, weights, binding, expr);
                pending_of_others(left, weights, binding, expr);
            }
        },
        Stmt::Switch { branches, default_branch, .. } => {
            if let Path::Go(index, path) = path {
                let (_, between) = rewritten_branches(interner, env, names, *branches)->0;
                branches_keep_the_shape(
                    interner,
                    env,
                    names,
                    *branches,
                    0,
                    Symbol { bits: 0 },
                );
                branches_keep_the_balance(
                    weights,
                    index,
                    *path,
                    count,
                    interner,
                    env,
                    names,
                    *branches,
                );
                branch_keeps_the_balance(
                    weights,
                    *path,
                    count,
                    interner,
                    env,
                    between,
                    *default_branch.1,
                );
            }
        },
        Stmt::Ret(_) | Stmt::Jump(_, _) | Stmt::Crash(_, _) => {},
        Stmt::Refcounting(rc, continuation) => match rc {
            ModifyRc::Inc(symbol, n) => {
                let increments = env.incremented_symbols;
                let added = increments_added(increments, symbol.bits, n);
                let inner = env.with_increments(added);
                pending_after_adding(increments, weights.symbol, symbol.bits, n);
                fits_other_increments(weights, interner, count, env, added);
                let between = rewritten(interner, inner, names, *continuation)->0;
                increments_are_performed(interner, inner, names, *continuation);
                rewriting_keeps_the_balance(
                    weights,
                    path,
                    count,
                    interner,
                    inner,
                    names,
                    *continuation,
                );
                if !increments.contains_key(symbol.bits) {
                    let left = between.env.incremented_symbols;
                    assert(left.dom() =~= left.dom().intersect(added.dom()));
                    pending_without(left, weights.symbol, symbol.bits);
                    if outstanding(left, symbol.bits) == 0 {
                        assert(0 * (weights.symbol)(symbol.bits) == 0);
                    }
                }
            },
            ModifyRc::Dec(symbol) => {
                decrement_keeps_the_balance(
                    weights,
                    path,
                    count,
                    interner,
                    env,
                    names,
                    symbol,
                    continuation,
                );
            },
            ModifyRc::DecRef(_) => {
                rewriting_keeps_the_balance(
                    weights,
                    path,
                    count,
                    interner,
                    env,
                    names,
                    *continuation,
                );
            },
        },
        Stmt::Expect { remainder, .. } => {
            rewriting_keeps_the_balance(weights, path, count, interner, env, names, *remainder);
        },
        Stmt::ExpectFx { remainder, .. } => {
            rewriting_keeps_the_balance(weights, path, count, interner, env, names, *remainder);
        },
        Stmt::Dbg { remainder, .. } => {
            rewriting_keeps_the_balance(weights, path, count, interner, env, names, *remainder);
        },
        Stmt::Join { parameters, body, remainder, .. } => {
            let cleared = env.without_incremented();
            let inside = env_with_parameters(cleared, parameters@);
            let between = rewritten(interner, inside, names, *body)->0;
            parameters_change_the_scope(cleared, parameters@);
            rewriting_keeps_the_shape(interner, inside, names, *body, 0, Symbol { bits: 0 });
            match path {
                Path::Both { remainder: first, body: then } => {
                    fits_other_increments(weights, interner, count, env, Map::empty());
                    fits_parameters(weights, interner, count, cleared, parameters@);
                    rewriting_keeps_the_balance(
                        weights,
                        *then,
                        count,
                        interner,
                        inside,
                        names,
                        *body,
                    );
                    increments_are_performed(interner, inside, names, *body);
                    assert(between.env.incremented_symbols =~= Map::empty());
                    rewriting_keeps_the_balance(
                        weights,
                        *first,
                        count,
                        interner,
                        env,
                        between.names,
                        *remainder,
                    );
                },
                _ => {
                    rewriting_keeps_the_balance(
                        weights,
                        path,
                        count,
                        interner,
                        env,
                        between.names,
                        *remainder,
                    );
                },
            }
        },
    }
}

proof fn decrement_keeps_the_balance<'a>(
    weights: Weights,
    path: Path,
    count: nat,
    interner: Seq<LayoutEntry<'a>>,
    env: EnvironmentView,
    names: Seq<Seq<char>>,
    symbol: Symbol,
    continuation: &'a Stmt<'a>,
)
    requires
        rewritten(
            interner,
            env,
            names,
            Stmt::Refcounting(ModifyRc::Dec(symbol), continuation),
        ) is Some,
        count <= names.len(),
        fits_env(weights, interner, count, env),
        is_scoped(interner, env.home, count, env.symbol_layouts, *continuation),
        fits(weights, interner, env.symbol_layouts, *continuation),
    ensures
        ({
            let stmt = Stmt::Refcounting(ModifyRc::Dec(symbol), continuation);
            let after = rewritten(interner, env, names, stmt)->0;
            net(weights, after.stmt, path) + pending(
                after.env.incremented_symbols,
                weights.symbol,
            ) == net(weights, *continuation, path) - (weights.symbol)(symbol.bits) + pending(
                env.incremented_symbols,
                weights.symbol,
            )
        }),
    decreases *continuation, 1nat,
{
    let stmt = Stmt::Refcounting(ModifyRc::Dec(symbol), continuation);
    let increments = env.incremented_symbols;
    let (left, incremented) = increments_popped(increments, env.children_of(symbol))->0;
    let (inner, plan, restored) = dec_prepared(interner, env, symbol)->0;
    let between = rewritten(interner, inner, names, *continuation)->0;
    let after = rewritten(interner, env, names, stmt)->0;
    assert(Some(after) == dec_finished(interner, symbol, plan, restored, between));
    assert(fits_children(weights, interner, env, symbol));
    pending_after_popping_all(increments, weights.symbol, env.children_of(symbol));
    pending_after_popping(left, weights.symbol, symbol.bits);
    fits_other_increments(weights, interner, count, env, inner.incremented_symbols);
    rewriting_keeps_the_shape(interner, inner, names, *continuation, 0, symbol);
    if plan is Cancel {
        assert(restored == incremented);
    } else {
        assert forall|s: Symbol| #[trigger]
            is_newer(env.home, between.names.len(), s) implies !counts(between.stmt, s.bits) by {
            assert(is_newer(env.home, count, s));
            assert(is_no_child(inner, s.bits)) by {
                assert forall|parent: Symbol| !(#[trigger] inner.children_of(parent)).contains(
                    s.bits,
                ) by {
                    assert(fits_children(weights, interner, env, parent));
                    assert(inner.children_of(parent) == env.children_of(parent));
                }
            }
            newer_symbols_do_not_occur(
                interner,
                env.home,
                count,
                env.symbol_layouts,
                *continuation,
                s,
            );
            rewriting_counts(interner, inner, names, *continuation, s);
        }
        a_plan_is_worth_a_decrement(
            weights,
            path,
            interner,
            count,
            env,
            symbol,
            incremented,
            plan,
            between.stmt,
            between.names,
        );
        total_splits(incremented, plan.used(), weights.symbol);
    }
    rewriting_keeps_the_balance(weights, path, count, interner, inner, names, *continuation);
    increments_are_performed(interner, inner, names, *continuation);
    let kept = between.env.incremented_symbols;
    assert(kept.dom() =~= kept.dom().intersect(inner.incremented_symbols.dom()));
    assert(restored =~= restored.intersect(incremented));
    pending_after_restoring(kept, weights.symbol, restored);
}

/// A statement that starts without increments.
proof fn branch_keeps_the_balance<'a>(
    weights: Weights,
    path: Path,
    count: nat,
    interner: Seq<LayoutEntry<'a>>,
    env: EnvironmentView,
    names: Seq<Seq<char>>,
    stmt: Stmt<'a>,
)
    requires
        rewritten(interner, env.without_incremented(), names, stmt) is Some,
        count <= names.len(),
        fits_env(weights, interner, count, env),
        is_scoped(interner, env.home, count, env.symbol_layouts, stmt),
        fits(weights, interner, env.symbol_layouts, stmt),
    ensures
        net(
            weights,
            (rewritten(interner, env.without_incremented(), names, stmt)->0).stmt,
            path,
        ) == net(weights, stmt, path),
    decreases stmt, 1nat,
{
    let inner = env.without_incremented();
    let increments = (rewritten(interner, inner, names, stmt)->0).env.incremented_symbols;
    fits_other_increments(weights, interner, count, env, Map::empty());
    rewriting_keeps_the_balance(weights, path, count, interner, inner, names, stmt);
    increments_are_performed(interner, inner, names, stmt);
    assert(increments =~= Map::empty());
}

proof fn branches_keep_the_balance<'a>(
    weights: Weights,
    index: nat,
    path: Path,
    count: nat,
    interner: Seq<LayoutEntry<'a>>,
    env: EnvironmentView,
    names: Seq<Seq<char>>,
    branches: Branches<'a>,
)
    requires
        rewritten_branches(interner, env, names, branches) is Some,
        count <= names.len(),
        fits_env(weights, interner, count, env),
        are_scoped(interner, env.home, count, env.symbol_layouts, branches),
        fits_branches(weights, interner, env.symbol_layouts, branches),
    ensures
        net_of_branch(
            weights,
            (rewritten_branches(interner, env, names, branches)->0).0,
            index,
            path,
        ) == net_of_branch(weights, branches, index, path),
    decreases branches, 0nat,
{
    if let Branches::Cons { branch, rest, .. } = branches {
        let inner = env.without_incremented();
        let between = (rewritten(interner, inner, names, *branch)->0).names;
        if index == 0 {
            branch_keeps_the_balance(weights, path, count, interner, env, names, *branch);
        } else {
            rewriting_keeps_the_shape(interner, inner, names, *branch, 0, Symbol { bits: 0 });
            branches_keep_the_balance(
                weights,
                (index - 1) as nat,
                path,
                count,
                interner,
                env,
                between,
                *rest,
            );
        }
    }
}

/// The scope in which the body of a procedure stands.
pub open spec fn scope_of_arguments(args: Seq<(InLayout, Symbol)>) -> Map<u64, InLayout>
    decreases args.len(),
{
    if args.len() == 0 {
        Map::empty()
    } else {
        scope_of_arguments(args.drop_last()).insert(args.last().1.bits, args.last().0)
    }
}

/// Whether the body of a procedure is in scope of its arguments, the home module has names for
/// all symbols in it, and the weights fit.
pub open spec fn fits_proc(
    weights: Weights,
    interner: Seq<LayoutEntry<'_>>,
    home: ModuleId,
    count: nat,
    proc: Proc<'_>,
) -> bool {
    let scope = scope_of_arguments(proc.args@);
    &&& forall|i: int|
        0 <= i < proc.args@.len() ==> !is_newer(home, count, (#[trigger] proc.args@[i]).1)
    &&& is_scoped(interner, home, count, scope, proc.body)
    &&& fits_scope(weights, interner, scope)
    &&& fits(weights, interner, scope, proc.body)
}

pub(crate) proof fn arguments_add_only_layouts(home: ModuleId, args: Seq<(InLayout, Symbol)>)
    ensures
        env_with_arguments(EnvironmentView::empty(home), args) == (EnvironmentView {
            symbol_layouts: scope_of_arguments(args),
            ..EnvironmentView::empty(home)
        }),
    decreases args.len(),
{
    if args.len() > 0 {
        arguments_add_only_layouts(home, args.drop_last());
    }
}

proof fn arguments_are_no_newer(
    home: ModuleId,
    count: nat,
    args: Seq<(InLayout, Symbol)>,
    symbol: Symbol,
)
    requires
        forall|i: int| 0 <= i < args.len() ==> !is_newer(home, count, (#[trigger] args[i]).1),
        scope_of_arguments(args).contains_key(symbol.bits),
    ensures
        !is_newer(home, count, symbol),
    decreases args.len(),
{
    if args.len() > 0 {
        let others = args.drop_last();
        let last = args[args.len() - 1].1;
        if symbol.bits == last.bits {
            assert(symbol == last);
        } else {
            assert forall|i: int| 0 <= i < others.len() implies !is_newer(
                home,
                count,
                (#[trigger] others[i]).1,
            ) by {
                assert(others[i] == args[i]);
            }
            arguments_are_no_newer(home, count, others, symbol);
        }
    }
}

/// On every way through a procedure, counting is worth the same before and after rewriting.
pub proof fn procedures_stay_balanced<'a>(
    weights: Weights,
    path: Path,
    count: nat,
    interner: Seq<LayoutEntry<'a>>,
    home: ModuleId,
    names: Seq<Seq<char>>,
    proc: Proc<'a>,
)
    requires
        rewritten_proc(interner, EnvironmentView::empty(home), names, proc) is Some,
        count <= names.len(),
        fits_proc(weights, interner, home, count, proc),
    ensures
        net(
            weights,
            (rewritten_proc(interner, EnvironmentView::empty(home), names, proc)->0).0.body,
            path,
        ) == net(weights, proc.body, path),
{
    let empty = EnvironmentView::empty(home);
    let env = env_with_arguments(empty, proc.args@);
    arguments_add_only_layouts(home, proc.args@);
    assert forall|symbol: Symbol|
        env.symbol_layouts.contains_key(symbol.bits) implies !#[trigger] is_newer(
        home,
        count,
        symbol,
    ) by {
        arguments_are_no_newer(home, count, proc.args@, symbol);
    }
    assert forall|symbol: Symbol| #[trigger] fits_children(weights, interner, env, symbol) by {
        assert(env.children_of(symbol) =~= Seq::empty());
    }
    assert(env.incremented_symbols.dom() =~= Set::empty());
    assert(env.without_incremented() =~= env);
    branch_keeps_the_balance(weights, path, count, interner, env, names, proc.body);
}

/// The same of each procedure of a module.
pub proof fn programs_stay_balanced<'a>(
    weights: Weights,
    path: Path,
    interner: Seq<LayoutEntry<'a>>,
    home: ModuleId,
    names: Seq<Seq<char>>,
    procs: Seq<((Symbol, ProcLayout<'a>), Proc<'a>)>,
    i: int,
)
    requires
        rewritten_procs(interner, home, names, procs) is Some,
        0 <= i < procs.len(),
        fits_proc(weights, interner, home, names.len(), procs[i].1),
    ensures
        net(
            weights,
            (rewritten_procs(interner, home, names, procs)->0).0[i].1.body,
            path,
        ) == net(weights, procs[i].1.body, path),
{
    each_procedure_is_rewritten_on_its_own(interner, home, names, procs, i);
    procedures_add_only_field_names(interner, home, names, procs.take(i));
    let (_, between) = rewritten_procs(interner, home, names, procs.take(i))->0;
    procedures_stay_balanced(weights, path, names.len(), interner, home, between, procs[i].1);
}

} // verus!
