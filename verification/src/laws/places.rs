//! Where the counting of a rewritten statement stands.
use crate::environment::{fresh_symbol, increments_added, EnvironmentView};
use crate::ir::{Branches, Expr, ModifyRc, Param, Stmt};
use crate::laws::balance::{
    parameters_add_only_layouts, scope_with_parameters, symbols_of_fields_are_children,
};
use crate::laws::shape::{
    a_fresh_symbol_is_newer, branches_keep_the_shape, gained_field_names, is_newer,
    released_fields_keep_the_shape, rewriting_keeps_the_shape,
};
use crate::layout::{InLayout, Layout, LayoutEntry};
use crate::rewriting::{
    dec_finished, dec_prepared, env_after_binding, env_with_parameters, fields_released,
    forgets_increments, increments_popped, rewritten, rewritten_branches, DecPlan,
};
use crate::symbol::{field_name, ModuleId, Symbol};
use vstd::prelude::*;

verus! {

/// What a program says of its symbols up to a point: their layouts, and which of them were indexed
/// out of which field of which struct.
pub struct Known<'a> {
    pub interner: Seq<LayoutEntry<'a>>,
    pub scope: Map<u64, InLayout>,
    pub children: Set<(u64, u64, u64)>,
}

impl<'a> Known<'a> {
    /// The layout of a symbol, if it is in scope.
    pub open spec fn layout_of(self, symbol: Symbol) -> Option<Layout<'a>> {
        if self.scope.contains_key(symbol.bits) && self.scope[symbol.bits].0 < self.interner.len() {
            Some(self.interner[self.scope[symbol.bits].0 as int].layout)
        } else {
            None
        }
    }

    /// Whether values of a layout are, or contain, reference counted values.
    pub open spec fn is_counted(self, layout: InLayout) -> bool {
        layout.0 < self.interner.len() && self.interner[layout.0 as int].contains_refcounted
    }

    /// Whether a symbol was indexed out of a field of a struct that is, or contains, reference
    /// counted values.
    pub open spec fn is_counted_field(self, structure: Symbol, field: Symbol) -> bool {
        exists|index: u64| #[trigger]
            self.children.contains((structure.bits, field.bits, index)) && self.is_counted_index(
                structure,
                index,
            )
    }

    /// Whether a field of a struct is, or contains, reference counted values.
    pub open spec fn is_counted_index(self, structure: Symbol, index: u64) -> bool {
        &&& self.layout_of(structure) matches Some(Layout::Struct { field_layouts })
        &&& index < field_layouts@.len()
        &&& self.is_counted(field_layouts@[index as int])
    }

    /// The same inside a join point.
    pub open spec fn with_parameters(self, parameters: Seq<Param>) -> Known<'a> {
        Known { scope: scope_with_parameters(self.scope, parameters), ..self }
    }
}

/// What is known once one more symbol is bound.
pub open spec fn known_after_binding<'a>(
    known: Known<'a>,
    binding: Symbol,
    expr: Expr<'_>,
    layout: InLayout,
) -> Known<'a> {
    Known {
        scope: known.scope.insert(binding.bits, layout),
        children: match expr {
            Expr::StructAtIndex { index, structure, .. } => known.children.insert(
                (structure.bits, binding.bits, index),
            ),
            _ => known.children,
        },
        ..known
    }
}

/// Whether a change of a count may stand where a symbol was decremented: a decrement of it or of
/// what was indexed out of a field of it with reference counted values, or a release of it alone.
pub open spec fn may_stand_for(
    known: Known<'_>,
    decremented: Option<Symbol>,
    rc: ModifyRc,
) -> bool {
    match (decremented, rc) {
        (Some(parent), ModifyRc::Dec(symbol)) => symbol == parent || known.is_counted_field(
            parent,
            symbol,
        ),
        (Some(parent), ModifyRc::DecRef(symbol)) => symbol == parent,
        _ => false,
    }
}

/// The symbol that a change of a count decrements.
pub open spec fn decremented_by(rc: ModifyRc) -> Option<Symbol> {
    match rc {
        ModifyRc::Dec(symbol) => Some(symbol),
        _ => None,
    }
}

/// Whether one statement stands in for another. It is the other but for its counting, where
/// - an increment stands only where the other has one of the same symbol, of any size,
/// - a decrement, or a release of a symbol alone, stands only where the other decrements the
///   symbol, or the struct that it was indexed out of if that field has reference counted values,
///   or releases the same symbol alone,
/// - a newer symbol is bound only to a field of a struct, where the other decrements that struct,
///   has the name and the layout of that field, which has reference counted values, and is
///   decremented right behind that.
///
/// `names` are the names of the home module, `decremented` is what the other has just decremented.
pub open spec fn stands_in(
    home: ModuleId,
    count: nat,
    names: Seq<Seq<char>>,
    known: Known<'_>,
    decremented: Option<Symbol>,
    after: Stmt<'_>,
    before: Stmt<'_>,
) -> bool
    decreases before, after,
{
    // Something stands where a decrement stood.
    ||| {
        &&& after matches Stmt::Refcounting(rc, rest)
        &&& may_stand_for(known, decremented, rc)
        &&& stands_in(home, count, names, known, decremented, *rest, before)
    }
    ||| {
        &&& after matches Stmt::Let(binding, expr, layout, rest)
        &&& expr matches Expr::StructAtIndex { index, field_layouts, structure }
        &&& is_newer(home, count, binding)
        &&& known.layout_of(structure) == Some(Layout::Struct { field_layouts })
        &&& known.is_counted_index(structure, index)
        &&& layout == field_layouts@[index as int]
        &&& names[binding.spec_ident_id().0 as int] == field_name(index as nat)
        &&& decremented == Some(structure)
        &&& release_stands_in(home, count, names, known, structure, binding, *rest, before)
    }
    // Some counting is not there any more.
    ||| {
        &&& before matches Stmt::Refcounting(rc, rest)
        &&& stands_in(home, count, names, known, decremented_by(rc), after, *rest)
    }
    // Both go on in the same way.
    ||| match before {
        Stmt::Refcounting(rc, rest) => {
            &&& after matches Stmt::Refcounting(after_rc, after_rest)
            &&& match (after_rc, rc) {
                (ModifyRc::Inc(symbol, _), ModifyRc::Inc(other, _)) => symbol == other,
                (ModifyRc::DecRef(symbol), ModifyRc::DecRef(other)) => symbol == other,
                _ => false,
            }
            &&& stands_in(home, count, names, known, None, *after_rest, *rest)
        },
        Stmt::Let(binding, expr, layout, rest) => {
            &&& after matches Stmt::Let(after_binding, after_expr, after_layout, after_rest)
            &&& after_binding == binding
            &&& after_expr == expr
            &&& after_layout == layout
            &&& stands_in(
                home,
                count,
                names,
                known_after_binding(known, binding, expr, layout),
                None,
                *after_rest,
                *rest,
            )
        },
        Stmt::Switch { cond_symbol, cond_layout, branches, default_branch, ret_layout } => {
            &&& after matches Stmt::Switch {
                cond_symbol: after_symbol,
                cond_layout: after_layout,
                branches: after_branches,
                default_branch: after_default,
                ret_layout: after_ret_layout,
            }
            &&& after_symbol == cond_symbol
            &&& after_layout == cond_layout
            &&& after_ret_layout == ret_layout
            &&& after_default.0 == default_branch.0
            &&& branches_stand_in(home, count, names, known, *after_branches, *branches)
            &&& stands_in(home, count, names, known, None, *after_default.1, *default_branch.1)
        },
        Stmt::Expect { condition, region, lookups, variables, remainder } => {
            &&& after matches Stmt::Expect { remainder: rest, .. }
            &&& after == (Stmt::Expect { condition, region, lookups, variables, remainder: rest })
            &&& stands_in(home, count, names, known, None, *rest, *remainder)
        },
        Stmt::ExpectFx { condition, region, lookups, variables, remainder } => {
            &&& after matches Stmt::ExpectFx { remainder: rest, .. }
            &&& after == (Stmt::ExpectFx { condition, region, lookups, variables, remainder: rest })
            &&& stands_in(home, count, names, known, None, *rest, *remainder)
        },
        Stmt::Dbg { symbol, variable, remainder } => {
            &&& after matches Stmt::Dbg { remainder: rest, .. }
            &&& after == (Stmt::Dbg { symbol, variable, remainder: rest })
            &&& stands_in(home, count, names, known, None, *rest, *remainder)
        },
        Stmt::Join { id, parameters, body, remainder } => {
            &&& after matches Stmt::Join { body: inside, remainder: rest, .. }
            &&& after == (Stmt::Join { id, parameters, body: inside, remainder: rest })
            &&& stands_in(
                home,
                count,
                names,
                known.with_parameters(parameters@),
                None,
                *inside,
                *body,
            )
            &&& stands_in(home, count, names, known, None, *rest, *remainder)
        },
        Stmt::Ret(_) | Stmt::Jump(_, _) | Stmt::Crash(_, _) => after == before,
    }
}

/// Whether a statement decrements a field of a struct first, and then stands in for another.
pub open spec fn release_stands_in(
    home: ModuleId,
    count: nat,
    names: Seq<Seq<char>>,
    known: Known<'_>,
    structure: Symbol,
    field: Symbol,
    after: Stmt<'_>,
    before: Stmt<'_>,
) -> bool
    decreases before, after,
{
    &&& after matches Stmt::Refcounting(rc, rest)
    &&& rc == ModifyRc::Dec(field)
    &&& stands_in(home, count, names, known, Some(structure), *rest, before)
}

pub open spec fn branches_stand_in(
    home: ModuleId,
    count: nat,
    names: Seq<Seq<char>>,
    known: Known<'_>,
    after: Branches<'_>,
    before: Branches<'_>,
) -> bool
    decreases before, after,
{
    match before {
        Branches::Nil => after is Nil,
        Branches::Cons { label, info, branch, rest } => {
            &&& after matches Branches::Cons {
                label: after_label,
                info: after_info,
                branch: after_branch,
                rest: after_rest,
            }
            &&& after_label == label
            &&& after_info == info
            &&& stands_in(home, count, names, known, None, *after_branch, *branch)
            &&& branches_stand_in(home, count, names, known, *after_rest, *rest)
        },
    }
}

/// Whether all names of some stand in front of others.
spec fn is_front(some: Seq<Seq<char>>, all: Seq<Seq<char>>) -> bool {
    some.len() <= all.len() && forall|i: int| 0 <= i < some.len() ==> #[trigger] all[i] == some[i]
}

proof fn earlier_names_are_in_front(
    first: Seq<Seq<char>>,
    second: Seq<Seq<char>>,
    all: Seq<Seq<char>>,
)
    requires
        gained_field_names(first, second),
        is_front(second, all),
    ensures
        is_front(first, all),
{
    assert forall|i: int| 0 <= i < first.len() implies #[trigger] all[i] == first[i] by {
        assert(first[i] == second.take(first.len() as int)[i]);
        assert(all[i] == second[i]);
    }
}

/// Whether an environment knows a symbol to be indexed out of a field of a struct.
pub open spec fn is_known_child(
    env: EnvironmentView,
    structure: u64,
    child: u64,
    index: u64,
) -> bool {
    env.struct_children.contains_key(structure) && env.struct_children[structure].contains(
        (child, index),
    )
}

/// Which symbols an environment knows to be indexed out of which field of which struct.
pub open spec fn known_children(env: EnvironmentView) -> Set<(u64, u64, u64)> {
    Set::new(|known: (u64, u64, u64)| is_known_child(env, known.0, known.1, known.2))
}

/// What an environment knows.
pub open spec fn known_in<'a>(interner: Seq<LayoutEntry<'a>>, env: EnvironmentView) -> Known<'a> {
    Known { interner, scope: env.symbol_layouts, children: known_children(env) }
}

proof fn bindings_become_known(
    interner: Seq<LayoutEntry<'_>>,
    env: EnvironmentView,
    binding: Symbol,
    expr: Expr<'_>,
    layout: InLayout,
)
    ensures
        known_in(interner, env_after_binding(env, binding, expr, layout)) == known_after_binding(
            known_in(interner, env),
            binding,
            expr,
            layout,
        ),
{
    let after = env_after_binding(env, binding, expr, layout);
    let now = known_in(interner, after).children;
    let expected = known_after_binding(known_in(interner, env), binding, expr, layout).children;
    assert forall|known: (u64, u64, u64)| now.contains(known) == expected.contains(known) by {
        let (structure, child, index) = known;
        if let Expr::StructAtIndex { index: i, structure: s, .. } = expr {
            if structure == s.bits {
                let before = env.struct_children_of(s);
                let list = after.struct_children[structure];
                assert(list == before.push((binding.bits, i)));
                if list.contains((child, index)) {
                    let at = list.index_of((child, index));
                    if at < before.len() {
                        assert(before[at] == (child, index));
                    }
                }
                if before.contains((child, index)) {
                    let at = before.index_of((child, index));
                    assert(list[at] == (child, index));
                }
                assert(list[before.len() as int] == (binding.bits, i));
            }
        }
    }
    assert(now =~= expected);
}

proof fn the_same_children_are_known(env: EnvironmentView, other: EnvironmentView)
    requires
        other.struct_children == env.struct_children,
    ensures
        known_children(other) == known_children(env),
{
    assert(known_children(other) =~= known_children(env));
}

proof fn released_fields_stand_in<'a>(
    interner: Seq<LayoutEntry<'a>>,
    home: ModuleId,
    structure: Symbol,
    field_layouts: &'a [InLayout],
    symbols: Seq<Option<u64>>,
    used: Set<u64>,
    from: nat,
    stmt: Stmt<'a>,
    names: Seq<Seq<char>>,
    count: nat,
    all: Seq<Seq<char>>,
    known: Known<'a>,
    before: Stmt<'a>,
)
    requires
        count <= names.len(),
        fields_released(interner, home, structure, field_layouts, symbols, used, from, stmt, names)
            is Some,
        known.interner == interner,
        known.layout_of(structure) == Some(Layout::Struct { field_layouts }),
        forall|i: int|
            from <= i < field_layouts@.len() && (
            #[trigger] symbols[i]) is Some ==> known.children.contains(
                (structure.bits, symbols[i]->0, i as u64),
            ),
        is_front(
            (fields_released(
                interner,
                home,
                structure,
                field_layouts,
                symbols,
                used,
                from,
                stmt,
                names,
            )->0).1,
            all,
        ),
        stands_in(home, count, all, known, Some(structure), stmt, before),
    ensures
        stands_in(
            home,
            count,
            all,
            known,
            Some(structure),
            (fields_released(
                interner,
                home,
                structure,
                field_layouts,
                symbols,
                used,
                from,
                stmt,
                names,
            )->0).0,
            before,
        ),
    decreases field_layouts@.len() - from,
{
    if from < field_layouts@.len() {
        let (rest, between) = fields_released(
            interner,
            home,
            structure,
            field_layouts,
            symbols,
            used,
            from + 1,
            stmt,
            names,
        )->0;
        let (_, after) = fields_released(
            interner,
            home,
            structure,
            field_layouts,
            symbols,
            used,
            from,
            stmt,
            names,
        )->0;
        assert(after == between || after == between.push(field_name(from)));
        assert forall|i: int| 0 <= i < between.len() implies #[trigger] all[i] == between[i] by {
            assert(after[i] == between[i]);
        }
        released_fields_stand_in(
            interner,
            home,
            structure,
            field_layouts,
            symbols,
            used,
            from + 1,
            stmt,
            names,
            count,
            all,
            known,
            before,
        );
        released_fields_keep_the_shape(
            interner,
            home,
            structure,
            field_layouts,
            symbols,
            used,
            from + 1,
            stmt,
            names,
            count,
            structure,
        );
        if after != between {
            a_fresh_symbol_is_newer(home, between);
            let fresh = fresh_symbol(home, between);
            assert(release_stands_in(
                home,
                count,
                all,
                known,
                structure,
                fresh,
                Stmt::Refcounting(ModifyRc::Dec(fresh), &rest),
                before,
            ));
            assert(after.len() == between.len() + 1);
            assert(all[between.len() as int] == after[between.len() as int]);
            assert(field_layouts@.len() == field_layouts.len());
            assert(known.is_counted_index(structure, from as u64));
        }
        assert(field_layouts@.len() == field_layouts.len());
        if symbols[from as int] is Some && known.is_counted(field_layouts@[from as int]) {
            let field = Symbol { bits: symbols[from as int]->0 };
            assert(known.children.contains((structure.bits, field.bits, from as u64)));
            assert(known.is_counted_index(structure, from as u64));
            assert(known.is_counted_field(structure, field));
        }
    }
}

proof fn rewriting_stands_in<'a>(
    interner: Seq<LayoutEntry<'a>>,
    env: EnvironmentView,
    names: Seq<Seq<char>>,
    stmt: Stmt<'a>,
    count: nat,
    all: Seq<Seq<char>>,
    decremented: Option<Symbol>,
)
    requires
        count <= names.len(),
        rewritten(interner, env, names, stmt) is Some,
        is_front((rewritten(interner, env, names, stmt)->0).names, all),
    ensures
        stands_in(
            env.home,
            count,
            all,
            known_in(interner, env),
            decremented,
            (rewritten(interner, env, names, stmt)->0).stmt,
            stmt,
        ),
    decreases stmt,
{
    let home = env.home;
    let known = known_in(interner, env);
    let after = rewritten(interner, env, names, stmt)->0;
    match stmt {
        Stmt::Let(binding, expr, layout, continuation) => {
            let bound = env_after_binding(env, binding, expr, layout);
            let inner = if forgets_increments(expr) {
                bound.without_incremented()
            } else {
                bound
            };
            bindings_become_known(interner, env, binding, expr, layout);
            the_same_children_are_known(bound, inner);
            rewriting_stands_in(interner, inner, names, *continuation, count, all, None);
            let between = rewritten(interner, inner, names, *continuation)->0;
            assert(after.stmt == Stmt::Let(binding, expr, layout, &between.stmt));
        },
        Stmt::Switch { branches, default_branch, .. } => {
            let cleared = env.without_incremented();
            let (_, between) = rewritten_branches(interner, env, names, *branches)->0;
            branches_keep_the_shape(interner, env, names, *branches, count, Symbol { bits: 0 });
            the_same_children_are_known(env, cleared);
            rewriting_keeps_the_shape(
                interner,
                cleared,
                between,
                *default_branch.1,
                count,
                Symbol { bits: 0 },
            );
            earlier_names_are_in_front(between, after.names, all);
            rewritten_branches_stand_in(interner, env, names, *branches, count, all);
            rewriting_stands_in(interner, cleared, between, *default_branch.1, count, all, None);
        },
        Stmt::Ret(_) | Stmt::Jump(_, _) | Stmt::Crash(_, _) => {},
        Stmt::Refcounting(rc, continuation) => match rc {
            ModifyRc::Inc(symbol, n) => {
                let inner = env.with_increments(
                    increments_added(env.incremented_symbols, symbol.bits, n),
                );
                the_same_children_are_known(env, inner);
                rewriting_stands_in(interner, inner, names, *continuation, count, all, None);
            },
            ModifyRc::Dec(symbol) => {
                let (inner, plan, restored) = dec_prepared(interner, env, symbol)->0;
                the_same_children_are_known(env, inner);
                rewriting_keeps_the_shape(interner, inner, names, *continuation, count, symbol);
                let between = rewritten(interner, inner, names, *continuation)->0;
                assert(Some(after) == dec_finished(interner, symbol, plan, restored, between));
                if let DecPlan::Fields { field_layouts, symbols, used } = plan {
                    released_fields_keep_the_shape(
                        interner,
                        home,
                        symbol,
                        field_layouts,
                        symbols,
                        used,
                        0,
                        between.stmt,
                        between.names,
                        count,
                        symbol,
                    );
                    earlier_names_are_in_front(between.names, after.names, all);
                }
                rewriting_stands_in(
                    interner,
                    inner,
                    names,
                    *continuation,
                    count,
                    all,
                    Some(symbol),
                );
                if let DecPlan::Fields { field_layouts, symbols, used } = plan {
                    let (_, incremented) = increments_popped(
                        env.incremented_symbols,
                        env.children_of(symbol),
                    )->0;
                    let children = env.struct_children_of(symbol);
                    symbols_of_fields_are_children(children, field_layouts@.len(), incremented);
                    assert forall|i: int|
                        0 <= i < field_layouts@.len() && (
                        #[trigger] symbols[i]) is Some implies known.children.contains(
                        (symbol.bits, symbols[i]->0, i as u64),
                    ) by {
                        let p = choose|p: int|
                            0 <= p < children.len() && #[trigger] children[p].0 == symbols[i]->0
                                && children[p].1 == i;
                        assert(children[p] == (symbols[i]->0, i as u64));
                        assert(is_known_child(env, symbol.bits, symbols[i]->0, i as u64));
                    }
                    released_fields_stand_in(
                        interner,
                        home,
                        symbol,
                        field_layouts,
                        symbols,
                        used,
                        0,
                        between.stmt,
                        between.names,
                        count,
                        all,
                        known,
                        *continuation,
                    );
                }
                assert(stands_in(home, count, all, known, Some(symbol), after.stmt, *continuation));
            },
            ModifyRc::DecRef(_) => {
                rewriting_stands_in(interner, env, names, *continuation, count, all, None);
            },
        },
        Stmt::Expect { remainder, .. } => {
            rewriting_stands_in(interner, env, names, *remainder, count, all, None);
        },
        Stmt::ExpectFx { remainder, .. } => {
            rewriting_stands_in(interner, env, names, *remainder, count, all, None);
        },
        Stmt::Dbg { remainder, .. } => {
            rewriting_stands_in(interner, env, names, *remainder, count, all, None);
        },
        Stmt::Join { parameters, body, remainder, .. } => {
            let cleared = env.without_incremented();
            let inside = env_with_parameters(cleared, parameters@);
            parameters_add_only_layouts(cleared, parameters@);
            the_same_children_are_known(env, inside);
            rewriting_keeps_the_shape(interner, inside, names, *body, count, Symbol { bits: 0 });
            let between = (rewritten(interner, inside, names, *body)->0).names;
            rewriting_keeps_the_shape(
                interner,
                env,
                between,
                *remainder,
                count,
                Symbol { bits: 0 },
            );
            earlier_names_are_in_front(between, after.names, all);
            rewriting_stands_in(interner, inside, names, *body, count, all, None);
            rewriting_stands_in(interner, env, between, *remainder, count, all, None);
        },
    }
}

proof fn rewritten_branches_stand_in<'a>(
    interner: Seq<LayoutEntry<'a>>,
    env: EnvironmentView,
    names: Seq<Seq<char>>,
    branches: Branches<'a>,
    count: nat,
    all: Seq<Seq<char>>,
)
    requires
        count <= names.len(),
        rewritten_branches(interner, env, names, branches) is Some,
        is_front((rewritten_branches(interner, env, names, branches)->0).1, all),
    ensures
        branches_stand_in(
            env.home,
            count,
            all,
            known_in(interner, env),
            (rewritten_branches(interner, env, names, branches)->0).0,
            branches,
        ),
    decreases branches,
{
    if let Branches::Cons { branch, rest, .. } = branches {
        let inner = env.without_incremented();
        the_same_children_are_known(env, inner);
        rewriting_keeps_the_shape(interner, inner, names, *branch, count, Symbol { bits: 0 });
        let between = (rewritten(interner, inner, names, *branch)->0).names;
        let (_, after) = rewritten_branches(interner, env, names, branches)->0;
        branches_keep_the_shape(interner, env, between, *rest, count, Symbol { bits: 0 });
        earlier_names_are_in_front(between, after, all);
        rewriting_stands_in(interner, inner, names, *branch, count, all, None);
        rewritten_branches_stand_in(interner, env, between, *rest, count, all);
    }
}

/// In a rewritten statement an increment of a symbol stands only where one of it stood before. A
/// decrement stands only where the symbol was decremented, or the struct that it was indexed out of
/// if that field has reference counted values. A new symbol is bound only to a field of a struct
/// with reference counted values, whose name and layout it has, where that struct was decremented.
pub proof fn counting_stands_where_it_stood<'a>(
    interner: Seq<LayoutEntry<'a>>,
    env: EnvironmentView,
    names: Seq<Seq<char>>,
    stmt: Stmt<'a>,
)
    requires
        rewritten(interner, env, names, stmt) is Some,
    ensures
        stands_in(
            env.home,
            names.len(),
            (rewritten(interner, env, names, stmt)->0).names,
            known_in(interner, env),
            None,
            (rewritten(interner, env, names, stmt)->0).stmt,
            stmt,
        ),
{
    let all = (rewritten(interner, env, names, stmt)->0).names;
    rewriting_stands_in(interner, env, names, stmt, names.len(), all, None);
}

} // verus!
