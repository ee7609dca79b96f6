//! Increments that meet a decrement of the same symbol, or of the one it was indexed out of.
use crate::environment::{
    can_pop, increment_popped, increments_added, outstanding, Child, EnvironmentView, Index,
};
use crate::ir::{ModifyRc, Stmt};
use crate::laws::increments::{increments_are_performed, popping_undoes_adding_one};
use crate::layout::{InLayout, Layout, LayoutEntry};
use crate::rewriting::{
    child_of_field, children_of_fields, dec_finished, dec_plan, dec_prepared, fields_released,
    first_in, increments_popped, increments_restored, plan_applied, rewritten, DecPlan, Rewritten,
};
use crate::symbol::Symbol;
use vstd::prelude::*;

verus! {

/// Whether no increment of what was indexed out of a symbol is outstanding.
pub open spec fn has_untouched_children(env: EnvironmentView, symbol: Symbol) -> bool {
    forall|i: int|
        0 <= i < env.children_of(symbol).len() ==> !env.incremented_symbols.contains_key(
            #[trigger] env.children_of(symbol)[i],
        )
}

/// Whether no increment of a symbol or of what was indexed out of it is outstanding, but for one
/// child, of which one more can be noted.
pub open spec fn is_untouched_but_for(env: EnvironmentView, symbol: Symbol, child: u64) -> bool {
    &&& !env.incremented_symbols.contains_key(symbol.bits)
    &&& forall|i: int|
        0 <= i < env.children_of(symbol).len() && #[trigger] env.children_of(symbol)[i] != child
            ==> !env.incremented_symbols.contains_key(env.children_of(symbol)[i])
    &&& can_pop(env.incremented_symbols, child)
    &&& outstanding(env.incremented_symbols, child) < u64::MAX
}

/// An increment followed by a statement.
pub open spec fn inc<'a>(symbol: Symbol, count: u64, stmt: &'a Stmt<'a>) -> Stmt<'a> {
    Stmt::Refcounting(ModifyRc::Inc(symbol, count), stmt)
}

/// A decrement followed by a statement.
pub open spec fn dec<'a>(symbol: Symbol, stmt: &'a Stmt<'a>) -> Stmt<'a> {
    Stmt::Refcounting(ModifyRc::Dec(symbol), stmt)
}

proof fn popping_without_increments(increments: Map<u64, u64>, symbols: Seq<u64>)
    requires
        forall|i: int|
            0 <= i < symbols.len() ==> !increments.contains_key(#[trigger] symbols[i]),
    ensures
        increments_popped(increments, symbols) == Some((increments, Set::<u64>::empty())),
    decreases symbols.len(),
{
    if symbols.len() > 0 {
        let others = symbols.drop_last();
        assert forall|i: int| 0 <= i < others.len() implies !increments.contains_key(
            #[trigger] others[i],
        ) by {
            assert(others[i] == symbols[i]);
        }
        popping_without_increments(increments, others);
        assert(!increments.contains_key(symbols[symbols.len() - 1]));
    }
}

proof fn popping_the_only_increment(increments: Map<u64, u64>, symbols: Seq<u64>, symbol: u64)
    requires
        symbols.no_duplicates(),
        symbols.contains(symbol),
        forall|i: int|
            0 <= i < symbols.len() && #[trigger] symbols[i] != symbol ==> !increments.contains_key(
                symbols[i],
            ),
        can_pop(increments, symbol),
        outstanding(increments, symbol) < u64::MAX,
    ensures
        increments_popped(increments_added(increments, symbol, 1), symbols) == Some(
            (increments, Set::<u64>::empty().insert(symbol)),
        ),
    decreases symbols.len(),
{
    let added = increments_added(increments, symbol, 1);
    let others = symbols.drop_last();
    assert(symbols[symbols.len() - 1] == symbols.last());
    assert forall|i: int| 0 <= i < others.len() && #[trigger] others[i] != symbol implies !(
    increments.contains_key(others[i])) by {
        assert(others[i] == symbols[i]);
    }
    let at = symbols.index_of(symbol);
    if symbols.last() == symbol {
        assert forall|i: int| 0 <= i < others.len() implies !added.contains_key(
            #[trigger] others[i],
        ) by {
            assert(others[i] == symbols[i]);
            assert(symbols[i] != symbols.last());
        }
        popping_without_increments(added, others);
        popping_undoes_adding_one(increments, symbol);
    } else {
        assert(others[at] == symbol);
        popping_the_only_increment(increments, others, symbol);
    }
}

proof fn nothing_is_restored(increments: Map<u64, u64>)
    ensures
        increments_restored(increments, Set::empty()) == increments,
{
    assert(increments_restored(increments, Set::empty()) =~= increments);
}

/// An increment of a symbol cancels the decrement behind it, whatever else of the symbol is
/// outstanding: both go, and of a larger increment one less is left. A symbol that was incremented
/// by zero before is left out: it would lose its entry.
pub proof fn an_increment_cancels_a_decrement<'a>(
    interner: Seq<LayoutEntry<'a>>,
    env: EnvironmentView,
    names: Seq<Seq<char>>,
    symbol: Symbol,
    count: u64,
    rest: &'a Stmt<'a>,
)
    requires
        has_untouched_children(env, symbol),
        !env.children_of(symbol).contains(symbol.bits),
        can_pop(env.incremented_symbols, symbol.bits),
        count > 0,
        outstanding(env.incremented_symbols, symbol.bits) + count <= u64::MAX,
    ensures
        rewritten(interner, env, names, inc(symbol, count, &dec(symbol, rest))) == (if count == 1 {
            rewritten(interner, env, names, *rest)
        } else {
            rewritten(interner, env, names, inc(symbol, (count - 1) as u64, rest))
        }),
{
    let increments = env.incremented_symbols;
    let added = increments_added(increments, symbol.bits, count);
    let inner = env.with_increments(added);
    let children = env.children_of(symbol);
    assert(inner.children_of(symbol) == children);
    assert forall|i: int| 0 <= i < children.len() implies !added.contains_key(
        #[trigger] children[i],
    ) by {
        assert(children[i] != symbol.bits);
    }
    popping_without_increments(added, children);
    let left = if count == 1 {
        increments
    } else {
        increments_added(increments, symbol.bits, (count - 1) as u64)
    };
    assert(increment_popped(added, symbol.bits) =~= left);
    let next = env.with_increments(left);
    assert(dec_prepared(interner, inner, symbol) == Some(
        (next, DecPlan::<'a>::Cancel, Set::<u64>::empty()),
    ));
    if count == 1 {
        assert(next =~= env);
    }
    let stmt = dec(symbol, rest);
    match rewritten(interner, next, names, *rest) {
        None => {
            assert(rewritten(interner, inner, names, stmt) is None);
        },
        Some(between) => {
            nothing_is_restored(between.env.incremented_symbols);
            assert(rewritten(interner, inner, names, stmt) == dec_finished(
                interner,
                symbol,
                DecPlan::Cancel,
                Set::empty(),
                between,
            ));
            assert(rewritten(interner, inner, names, stmt)->0 =~= between);
            if count == 1 {
                increments_are_performed(interner, env, names, *rest);
                if !increments.contains_key(symbol.bits) {
                    assert(between.env.incremented_symbols.remove(symbol.bits)
                        =~= between.env.incremented_symbols);
                }
            }
        },
    }
}

/// Two increments of a symbol become what one by their sum becomes.
pub proof fn increments_are_merged<'a>(
    interner: Seq<LayoutEntry<'a>>,
    env: EnvironmentView,
    names: Seq<Seq<char>>,
    symbol: Symbol,
    first: u64,
    second: u64,
    rest: &'a Stmt<'a>,
)
    requires
        first + second <= u64::MAX,
    ensures
        rewritten(interner, env, names, inc(symbol, first, &inc(symbol, second, rest)))
            == rewritten(interner, env, names, inc(symbol, (first + second) as u64, rest)),
{
    let increments = env.incremented_symbols;
    if outstanding(increments, symbol.bits) + first + second <= u64::MAX {
        let once = increments_added(increments, symbol.bits, first);
        assert(increments_added(once, symbol.bits, second) =~= increments_added(
            increments,
            symbol.bits,
            (first + second) as u64,
        ));
        let inner = env.with_increments(once);
        assert(inner.with_increments(increments_added(once, symbol.bits, second))
            =~= env.with_increments(
            increments_added(increments, symbol.bits, (first + second) as u64),
        ));
        assert(rewritten(interner, inner, names, inc(symbol, second, rest)) == rewritten(
            interner,
            env.with_increments(
                increments_added(increments, symbol.bits, (first + second) as u64),
            ),
            names,
            *rest,
        ));
    } else if outstanding(increments, symbol.bits) + first <= u64::MAX {
        let inner = env.with_increments(increments_added(increments, symbol.bits, first));
        assert(rewritten(interner, inner, names, inc(symbol, second, rest)) is None);
    }
}

proof fn no_child_of_another_field_is_used(
    children: Seq<(Child, Index)>,
    index: int,
    available: Set<u64>,
)
    requires
        forall|p: int|
            0 <= p < children.len() && (#[trigger] children[p]).1 == index ==> !available.contains(
                children[p].0,
            ),
    ensures
        !child_of_field(children, index, available).1,
    decreases children.len(),
{
    if children.len() > 0 {
        let others = children.drop_last();
        assert forall|p: int|
            0 <= p < others.len() && (#[trigger] others[p]).1 == index implies !available.contains(
            others[p].0,
        ) by {
            assert(others[p] == children[p]);
        }
        no_child_of_another_field_is_used(others, index, available);
        assert(children[children.len() - 1] == children.last());
    }
}

proof fn the_child_of_its_field_is_used(
    children: Seq<(Child, Index)>,
    at: int,
    available: Set<u64>,
)
    requires
        0 <= at < children.len(),
        available.contains(children[at].0),
        forall|p: int|
            0 <= p < children.len() && available.contains((#[trigger] children[p]).0) ==> p == at,
    ensures
        child_of_field(children, children[at].1 as int, available) == (Some(children[at].0), true),
    decreases children.len(),
{
    let others = children.drop_last();
    let index = children[at].1 as int;
    if at < others.len() {
        assert forall|p: int|
            0 <= p < others.len() && available.contains(
                (#[trigger] others[p]).0,
            ) implies p == at by {
            assert(others[p] == children[p]);
        }
        assert(others[at] == children[at]);
        the_child_of_its_field_is_used(others, at, available);
    } else {
        assert forall|p: int|
            0 <= p < others.len() && (#[trigger] others[p]).1 == index implies !available.contains(
            others[p].0,
        ) by {
            assert(others[p] == children[p]);
        }
        no_child_of_another_field_is_used(others, index, available);
    }
}

proof fn one_child_is_used(children: Seq<(Child, Index)>, count: nat, at: int)
    requires
        0 <= at < children.len(),
        forall|p: int|
            0 <= p < children.len() && (#[trigger] children[p]).0 == children[at].0 ==> p == at,
    ensures
        ({
            let only = Set::<u64>::empty().insert(children[at].0);
            let (symbols, used) = children_of_fields(children, count, only);
            &&& symbols.len() == count
            &&& used == (if children[at].1 < count {
                only
            } else {
                Set::empty()
            })
            &&& children[at].1 < count ==> symbols[children[at].1 as int] == Some(children[at].0)
        }),
    decreases count,
{
    let child = children[at].0;
    let index = children[at].1;
    let only = Set::<u64>::empty().insert(child);
    if count > 0 {
        let last = (count - 1) as nat;
        one_child_is_used(children, last, at);
        let (symbols, used) = children_of_fields(children, last, only);
        let available = only.difference(used);
        if index == last {
            assert(available =~= only);
            the_child_of_its_field_is_used(children, at, available);
            assert(used.insert(child) =~= only);
        } else {
            assert forall|p: int|
                0 <= p < children.len() && (#[trigger] children[p]).1
                    == last implies !available.contains(children[p].0) by {
                if children[p].0 == child {
                    assert(p == at);
                }
            }
            no_child_of_another_field_is_used(children, last as int, available);
        }
    }
}

/// The position of a child of a struct is its position among all children.
proof fn struct_children_come_first(env: EnvironmentView, parent: Symbol, at: int)
    requires
        env.children_of(parent).no_duplicates(),
        0 <= at < env.struct_children_of(parent).len(),
    ensures
        env.children_of(parent).contains(env.struct_children_of(parent)[at].0),
        forall|p: int|
            0 <= p < env.struct_children_of(parent).len() && (
            #[trigger] env.struct_children_of(parent)[p]).0 == env.struct_children_of(
                parent,
            )[at].0 ==> p == at,
{
    let all = env.children_of(parent);
    let children = env.struct_children_of(parent);
    assert forall|p: int| 0 <= p < children.len() implies all[p] == (#[trigger] children[p]).0 by {}
    assert(all[at] == children[at].0);
}

/// What a decrement of a parent becomes when one child has just been incremented: what the plan
/// for it says, and the increment of the child is gone if the plan uses it.
proof fn a_used_increment_is_gone<'a>(
    interner: Seq<LayoutEntry<'a>>,
    env: EnvironmentView,
    names: Seq<Seq<char>>,
    parent: Symbol,
    child: Symbol,
    rest: &'a Stmt<'a>,
    plan: DecPlan<'a>,
    between: Rewritten<'a>,
)
    requires
        is_untouched_but_for(env, parent, child.bits),
        env.children_of(parent).no_duplicates(),
        env.children_of(parent).contains(child.bits),
        child != parent,
        dec_plan(interner, env, parent, Set::empty().insert(child.bits)) == Some(plan),
        plan.used() == Set::<u64>::empty().insert(child.bits),
        rewritten(interner, env, names, *rest) == Some(between),
    ensures
        rewritten(interner, env, names, inc(child, 1, &dec(parent, rest))) == (match plan_applied(
            interner,
            between.env.home,
            parent,
            plan,
            between.stmt,
            between.names,
        ) {
            None => None,
            Some((stmt, after)) => Some(Rewritten { stmt, env: between.env, names: after }),
        }),
{
    let increments = env.incremented_symbols;
    let added = increments_added(increments, child.bits, 1);
    let inner = env.with_increments(added);
    let children = env.children_of(parent);
    let only = Set::<u64>::empty().insert(child.bits);
    assert(inner.children_of(parent) == children);
    popping_the_only_increment(increments, children, child.bits);
    assert(dec_plan(interner, inner, parent, only) == dec_plan(interner, env, parent, only));
    assert(only.difference(plan.used()) =~= Set::empty());
    assert(inner.with_increments(increments) =~= env);
    assert(child.bits != parent.bits);
    assert(dec_prepared(interner, inner, parent) == Some((env, plan, Set::<u64>::empty())));
    let stmt = dec(parent, rest);
    nothing_is_restored(between.env.incremented_symbols);
    assert(rewritten(interner, inner, names, stmt) == dec_finished(
        interner,
        parent,
        plan,
        Set::empty(),
        between,
    ));
    if let Some(after) = rewritten(interner, inner, names, stmt) {
        assert(after.env =~= between.env);
    }
    increments_are_performed(interner, env, names, *rest);
    if !increments.contains_key(child.bits) {
        assert(between.env.incremented_symbols.remove(child.bits)
            =~= between.env.incremented_symbols);
    }
}

/// An increment of what was indexed out of a struct meets the decrement of the struct behind it:
/// the increment goes, the fields of the struct are released one by one, and the field of the
/// child is left out.
pub proof fn an_incremented_field_is_not_released<'a>(
    interner: Seq<LayoutEntry<'a>>,
    env: EnvironmentView,
    names: Seq<Seq<char>>,
    parent: Symbol,
    at: int,
    field_layouts: &'a [InLayout],
    rest: &'a Stmt<'a>,
)
    requires
        0 <= at < env.struct_children_of(parent).len(),
        is_untouched_but_for(env, parent, env.struct_children_of(parent)[at].0),
        env.children_of(parent).no_duplicates(),
        !env.children_of(parent).contains(parent.bits),
        env.symbol_layouts.contains_key(parent.bits),
        env.symbol_layouts[parent.bits].0 < interner.len(),
        interner[env.symbol_layouts[parent.bits].0 as int].layout == (Layout::Struct {
            field_layouts,
        }),
        env.struct_children_of(parent)[at].1 < field_layouts@.len(),
        rewritten(interner, env, names, *rest) is Some,
    ensures
        ({
            let (child, index) = env.struct_children_of(parent)[at];
            let only = Set::<u64>::empty().insert(child);
            let symbols = children_of_fields(
                env.struct_children_of(parent),
                field_layouts@.len(),
                only,
            ).0;
            let between = rewritten(interner, env, names, *rest)->0;
            let released = fields_released(
                interner,
                between.env.home,
                parent,
                field_layouts,
                symbols,
                only,
                0,
                between.stmt,
                between.names,
            );
            &&& symbols[index as int] == Some(child)
            &&& rewritten(
                interner,
                env,
                names,
                inc(Symbol { bits: child }, 1, &dec(parent, rest)),
            ) == (match released {
                None => None,
                Some((stmt, after)) => Some(Rewritten { stmt, env: between.env, names: after }),
            })
        }),
{
    let children = env.struct_children_of(parent);
    let child = Symbol { bits: children[at].0 };
    let only = Set::<u64>::empty().insert(child.bits);
    struct_children_come_first(env, parent, at);
    one_child_is_used(children, field_layouts@.len(), at);
    let (symbols, used) = children_of_fields(children, field_layouts@.len(), only);
    let plan = DecPlan::Fields { field_layouts, symbols, used };
    let between = rewritten(interner, env, names, *rest)->0;
    assert(env.struct_children.contains_key(parent.bits));
    assert(dec_plan(interner, env, parent, only) == Some(plan));
    a_used_increment_is_gone(interner, env, names, parent, child, rest, plan, between);
}

proof fn the_only_one_is_first(symbols: Seq<u64>, symbol: u64)
    requires
        symbols.contains(symbol),
    ensures
        first_in(symbols, Set::empty().insert(symbol)) == Some(symbol),
    decreases symbols.len(),
{
    let others = symbols.drop_last();
    let at = symbols.index_of(symbol);
    if at < others.len() {
        assert(others[at] == symbol);
        the_only_one_is_first(others, symbol);
    } else if others.contains(symbol) {
        the_only_one_is_first(others, symbol);
    } else {
        not_among_them(others, symbol);
    }
}

proof fn not_among_them(symbols: Seq<u64>, symbol: u64)
    requires
        !symbols.contains(symbol),
    ensures
        first_in(symbols, Set::empty().insert(symbol)) is None,
    decreases symbols.len(),
{
    if symbols.len() > 0 {
        let others = symbols.drop_last();
        assert(symbols[symbols.len() - 1] != symbol);
        assert forall|i: int| 0 <= i < others.len() implies others[i] != symbol by {
            assert(others[i] == symbols[i]);
        }
        not_among_them(others, symbol);
    }
}

/// An increment of what was taken out of a box meets the decrement of the box behind it: the
/// increment goes, and only the box itself is released.
pub proof fn an_incremented_content_is_not_released<'a>(
    interner: Seq<LayoutEntry<'a>>,
    env: EnvironmentView,
    names: Seq<Seq<char>>,
    parent: Symbol,
    child: Symbol,
    content: InLayout,
    rest: &'a Stmt<'a>,
)
    requires
        is_untouched_but_for(env, parent, child.bits),
        env.children_of(parent).no_duplicates(),
        env.children_of(parent).contains(child.bits),
        child != parent,
        env.symbol_layouts.contains_key(parent.bits),
        env.symbol_layouts[parent.bits].0 < interner.len(),
        interner[env.symbol_layouts[parent.bits].0 as int].layout == Layout::Boxed(content),
        rewritten(interner, env, names, *rest) is Some,
    ensures
        ({
            let between = rewritten(interner, env, names, *rest)->0;
            rewritten(interner, env, names, inc(child, 1, &dec(parent, rest))) == Some(
                between.with_stmt(Stmt::Refcounting(ModifyRc::DecRef(parent), &between.stmt)),
            )
        }),
{
    let only = Set::<u64>::empty().insert(child.bits);
    let plan = DecPlan::Release { child: child.bits };
    let between = rewritten(interner, env, names, *rest)->0;
    the_only_one_is_first(env.children_of(parent), child.bits);
    assert(dec_plan(interner, env, parent, only) == Some(plan));
    a_used_increment_is_gone(interner, env, names, parent, child, rest, plan, between);
}

} // verus!
