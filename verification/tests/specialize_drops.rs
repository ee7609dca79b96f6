use bumpalo::Bump;
use drop_specialization::drop_specialization::{
    free, specialize_drops, specialize_drops_proc, specialize_drops_stmt,
};
use drop_specialization::environment::DropSpecializationEnvironment;
use drop_specialization::ir::{
    BranchInfo, Branches, Call, CallType, CrashTag, Expr, JoinPointId, Literal, ModifyRc,
    Ownership, Param, Proc, ProcLayout, Region, Stmt, UpdateModeId, UpdateModeIds, Variable,
};
use drop_specialization::layout::{InLayout, Layout, LayoutEntry, STLayoutInterner};
use drop_specialization::symbol::{IdentId, IdentIds, ModuleId, Symbol};

const HOME: ModuleId = ModuleId(7);

const INT: InLayout = InLayout(0);
const STR: InLayout = InLayout(1);
/// A struct of two strings.
const PAIR: InLayout = InLayout(2);
/// A struct of an integer and a string.
const MIXED: InLayout = InLayout(3);
const BOXED: InLayout = InLayout(4);
const UNION: InLayout = InLayout(5);
/// A struct of eleven strings.
const WIDE: InLayout = InLayout(6);

fn layouts<'a>(arena: &'a Bump) -> STLayoutInterner<'a> {
    let mut interner = STLayoutInterner::new();
    let mut add = |layout: Layout<'a>, contains_refcounted: bool| {
        interner.insert(LayoutEntry { layout, contains_refcounted })
    };
    assert_eq!(add(Layout::Builtin, false), INT);
    assert_eq!(add(Layout::Builtin, true), STR);
    assert_eq!(add(Layout::Struct { field_layouts: pair(arena) }, true), PAIR);
    assert_eq!(add(Layout::Struct { field_layouts: mixed(arena) }, true), MIXED);
    assert_eq!(add(Layout::Boxed(STR), true), BOXED);
    assert_eq!(add(Layout::Union, true), UNION);
    assert_eq!(add(Layout::Struct { field_layouts: wide(arena) }, true), WIDE);
    interner
}

fn pair(arena: &Bump) -> &[InLayout] {
    arena.alloc_slice_copy(&[STR, STR])
}

fn mixed(arena: &Bump) -> &[InLayout] {
    arena.alloc_slice_copy(&[INT, STR])
}

fn wide(arena: &Bump) -> &[InLayout] {
    arena.alloc_slice_copy(&[STR; 11])
}

/// The names of a module that has ten of them.
fn names() -> IdentIds {
    let mut ident_ids = IdentIds::new();
    for name in ["a", "b", "c", "d", "e", "f", "g", "h", "i", "j"] {
        ident_ids.add_str(name);
    }
    ident_ids
}

fn sym(position: u32) -> Symbol {
    Symbol::new(HOME, IdentId(position))
}

fn inc<'a>(arena: &'a Bump, symbol: Symbol, count: u64, rest: &'a Stmt<'a>) -> &'a Stmt<'a> {
    arena.alloc(Stmt::Refcounting(ModifyRc::Inc(symbol, count), rest))
}

fn dec<'a>(arena: &'a Bump, symbol: Symbol, rest: &'a Stmt<'a>) -> &'a Stmt<'a> {
    arena.alloc(Stmt::Refcounting(ModifyRc::Dec(symbol), rest))
}

fn dec_ref<'a>(arena: &'a Bump, symbol: Symbol, rest: &'a Stmt<'a>) -> &'a Stmt<'a> {
    arena.alloc(Stmt::Refcounting(ModifyRc::DecRef(symbol), rest))
}

fn ret<'a>(arena: &'a Bump, symbol: Symbol) -> &'a Stmt<'a> {
    arena.alloc(Stmt::Ret(symbol))
}

fn bind<'a>(
    arena: &'a Bump,
    symbol: Symbol,
    expr: Expr<'a>,
    layout: InLayout,
    rest: &'a Stmt<'a>,
) -> &'a Stmt<'a> {
    arena.alloc(Stmt::Let(symbol, expr, layout, rest))
}

fn field<'a>(field_layouts: &'a [InLayout], structure: Symbol, index: u64) -> Expr<'a> {
    Expr::StructAtIndex { index, field_layouts, structure }
}

fn union_field<'a>(structure: Symbol, index: u64) -> Expr<'a> {
    Expr::UnionAtIndex { structure, tag_id: 1, union_layout: UNION, index }
}

fn call<'a>(arena: &'a Bump, argument: Symbol) -> Expr<'a> {
    Expr::Call(Call {
        call_type: CallType::ByName {
            name: sym(9),
            ret_layout: STR,
            arg_layouts: arena.alloc_slice_copy(&[STR]),
        },
        arguments: arena.alloc_slice_copy(&[argument]),
    })
}

fn proc<'a>(arena: &'a Bump, args: &[(InLayout, Symbol)], body: &Stmt<'a>) -> Proc<'a> {
    Proc {
        name: sym(8),
        args: arena.alloc_slice_copy(args),
        body: *body,
        closure_data_layout: None,
        ret_layout: STR,
        is_self_recursive: false,
    }
}

/// Rewrites one procedure of a module with ten names.
fn run<'a>(
    arena: &'a Bump,
    args: &[(InLayout, Symbol)],
    body: &Stmt<'a>,
) -> (Stmt<'a>, IdentIds) {
    let interner = layouts(arena);
    let mut ident_ids = names();
    let mut update_mode_ids = UpdateModeIds { next: 3 };
    let key = (sym(8), ProcLayout { arguments: &[], result: STR });
    let mut procs = vec![(key, proc(arena, args, body))];
    specialize_drops(
        arena,
        &interner,
        HOME,
        &mut ident_ids,
        &mut update_mode_ids,
        &mut procs,
    );
    assert_eq!(update_mode_ids, UpdateModeIds { next: 3 });
    assert_eq!(procs.len(), 1);
    (procs[0].1.body, ident_ids)
}

#[test]
fn an_increment_and_the_decrement_behind_it_go() {
    let arena = &Bump::new();
    let a = sym(0);
    let body = inc(arena, a, 1, dec(arena, a, ret(arena, a)));
    let (result, ident_ids) = run(arena, &[(STR, a)], body);
    assert_eq!(result, Stmt::Ret(a));
    assert_eq!(ident_ids.len(), 10);
}

#[test]
fn one_of_a_larger_increment_goes() {
    let arena = &Bump::new();
    let a = sym(0);
    let body = inc(arena, a, 3, dec(arena, a, ret(arena, a)));
    let (result, _) = run(arena, &[(STR, a)], body);
    assert_eq!(&result, inc(arena, a, 2, ret(arena, a)));
}

#[test]
fn a_decrement_before_the_increment_stays() {
    let arena = &Bump::new();
    let a = sym(0);
    let body = dec(arena, a, inc(arena, a, 1, ret(arena, a)));
    let (result, _) = run(arena, &[(STR, a)], body);
    assert_eq!(&result, body);
}

#[test]
fn increments_of_a_symbol_are_merged_into_the_first() {
    let arena = &Bump::new();
    let (a, b) = (sym(0), sym(1));
    let body = inc(
        arena,
        a,
        1,
        inc(arena, b, 4, inc(arena, a, 2, ret(arena, a))),
    );
    let (result, _) = run(arena, &[(STR, a), (STR, b)], body);
    assert_eq!(&result, inc(arena, a, 3, inc(arena, b, 4, ret(arena, a))));
}

#[test]
fn an_increment_after_all_were_used_up_is_a_first_one() {
    let arena = &Bump::new();
    let a = sym(0);
    let body = inc(arena, a, 1, dec(arena, a, inc(arena, a, 2, ret(arena, a))));
    let (result, _) = run(arena, &[(STR, a)], body);
    assert_eq!(&result, inc(arena, a, 2, ret(arena, a)));
}

#[test]
fn an_increment_by_zero_goes() {
    let arena = &Bump::new();
    let a = sym(0);
    let (result, _) = run(arena, &[(STR, a)], inc(arena, a, 0, ret(arena, a)));
    assert_eq!(result, Stmt::Ret(a));
}

#[test]
fn the_decrement_of_the_child_uses_the_increment_up_and_the_parent_is_taken_apart() {
    let arena = &Bump::new();
    let (a, b) = (sym(0), sym(1));
    let fields = pair(arena);
    // let a = index b; inc a; dec a; dec b
    let body = bind(
        arena,
        a,
        field(fields, b, 0),
        STR,
        inc(arena, a, 1, dec(arena, a, dec(arena, b, ret(arena, b)))),
    );
    let (result, ident_ids) = run(arena, &[(PAIR, b)], body);
    let fresh = sym(10);
    let expected = bind(
        arena,
        a,
        field(fields, b, 0),
        STR,
        dec(
            arena,
            a,
            bind(
                arena,
                fresh,
                field(fields, b, 1),
                STR,
                dec(arena, fresh, ret(arena, b)),
            ),
        ),
    );
    assert_eq!(&result, expected);
    assert_eq!(ident_ids.len(), 11);
    assert_eq!(ident_ids.get_name(IdentId(10)), Some("field_val_1"));
}

#[test]
fn an_incremented_field_is_left_out() {
    let arena = &Bump::new();
    let (a, b) = (sym(0), sym(1));
    let fields = pair(arena);
    let body = bind(
        arena,
        a,
        field(fields, b, 0),
        STR,
        inc(arena, a, 1, dec(arena, b, ret(arena, a))),
    );
    let (result, ident_ids) = run(arena, &[(PAIR, b)], body);
    let fresh = sym(10);
    let expected = bind(
        arena,
        a,
        field(fields, b, 0),
        STR,
        bind(
            arena,
            fresh,
            field(fields, b, 1),
            STR,
            dec(arena, fresh, ret(arena, a)),
        ),
    );
    assert_eq!(&result, expected);
    assert_eq!(ident_ids.get_name(IdentId(10)), Some("field_val_1"));
    assert_eq!(ident_ids.get_name(IdentId(11)), None);
}

#[test]
fn a_field_with_a_symbol_is_decremented_by_it() {
    let arena = &Bump::new();
    let (a, b, c) = (sym(0), sym(1), sym(2));
    let fields = pair(arena);
    let indexed = |rest| {
        bind(
            arena,
            a,
            field(fields, b, 0),
            STR,
            bind(arena, c, field(fields, b, 1), STR, rest),
        )
    };
    let body = indexed(inc(arena, a, 1, dec(arena, b, ret(arena, a))));
    let (result, ident_ids) = run(arena, &[(PAIR, b)], body);
    assert_eq!(&result, indexed(dec(arena, c, ret(arena, a))));
    assert_eq!(ident_ids.len(), 10);
}

#[test]
fn fields_are_decremented_in_order() {
    let arena = &Bump::new();
    let (a, b, c) = (sym(0), sym(1), sym(2));
    let fields = pair(arena);
    let indexed = |rest| {
        bind(
            arena,
            c,
            field(fields, b, 1),
            STR,
            bind(arena, a, field(fields, b, 0), STR, rest),
        )
    };
    let body = indexed(dec(arena, b, ret(arena, b)));
    let (result, _) = run(arena, &[(PAIR, b)], body);
    assert_eq!(&result, indexed(dec(arena, a, dec(arena, c, ret(arena, b)))));
}

#[test]
fn fields_without_counted_values_need_nothing() {
    let arena = &Bump::new();
    let (a, b) = (sym(0), sym(1));
    let fields = mixed(arena);
    let body = bind(
        arena,
        a,
        field(fields, b, 1),
        STR,
        inc(arena, a, 1, dec(arena, b, ret(arena, a))),
    );
    let (result, ident_ids) = run(arena, &[(MIXED, b)], body);
    assert_eq!(
        &result,
        bind(arena, a, field(fields, b, 1), STR, ret(arena, a))
    );
    assert_eq!(ident_ids.len(), 10);
}

#[test]
fn a_larger_increment_of_a_child_loses_one() {
    let arena = &Bump::new();
    let (a, b) = (sym(0), sym(1));
    let fields = mixed(arena);
    let indexed = |rest| bind(arena, a, field(fields, b, 1), STR, rest);
    let body = indexed(inc(arena, a, 3, dec(arena, b, ret(arena, a))));
    let (result, _) = run(arena, &[(MIXED, b)], body);
    assert_eq!(&result, indexed(inc(arena, a, 2, ret(arena, a))));
}

#[test]
fn a_field_that_was_indexed_twice_uses_the_incremented_symbol() {
    let arena = &Bump::new();
    let (a, b, c) = (sym(0), sym(1), sym(2));
    let fields = mixed(arena);
    let indexed = |rest| {
        bind(
            arena,
            a,
            field(fields, b, 1),
            STR,
            bind(arena, c, field(fields, b, 1), STR, rest),
        )
    };
    let first = indexed(inc(arena, a, 1, dec(arena, b, ret(arena, a))));
    assert_eq!(&run(arena, &[(MIXED, b)], first).0, indexed(ret(arena, a)));
    let second = indexed(inc(arena, c, 1, dec(arena, b, ret(arena, c))));
    assert_eq!(&run(arena, &[(MIXED, b)], second).0, indexed(ret(arena, c)));
    let both = indexed(inc(arena, a, 1, inc(arena, c, 1, dec(arena, b, ret(arena, c)))));
    assert_eq!(
        &run(arena, &[(MIXED, b)], both).0,
        indexed(inc(arena, c, 1, ret(arena, c)))
    );
    let neither = indexed(dec(arena, b, ret(arena, c)));
    assert_eq!(
        &run(arena, &[(MIXED, b)], neither).0,
        indexed(dec(arena, c, ret(arena, c)))
    );
}

#[test]
fn a_struct_without_known_children_is_decremented_as_a_whole() {
    let arena = &Bump::new();
    let b = sym(1);
    let body = dec(arena, b, ret(arena, b));
    let (result, ident_ids) = run(arena, &[(PAIR, b)], body);
    assert_eq!(&result, body);
    assert_eq!(ident_ids.len(), 10);
}

#[test]
fn the_increment_of_a_child_is_kept_from_the_continuation() {
    let arena = &Bump::new();
    let (a, b) = (sym(0), sym(1));
    let fields = mixed(arena);
    let indexed = |rest| bind(arena, a, field(fields, b, 1), STR, rest);
    let body = indexed(inc(
        arena,
        a,
        1,
        dec(arena, b, dec(arena, a, ret(arena, b))),
    ));
    let (result, _) = run(arena, &[(MIXED, b)], body);
    assert_eq!(&result, indexed(dec(arena, a, ret(arena, b))));
}

#[test]
fn a_cancelled_parent_gives_the_increments_of_its_children_back() {
    let arena = &Bump::new();
    let (a, b) = (sym(0), sym(1));
    let fields = mixed(arena);
    let indexed = |rest| bind(arena, a, field(fields, b, 1), STR, rest);
    let body = indexed(inc(
        arena,
        b,
        1,
        inc(arena, a, 1, dec(arena, b, ret(arena, a))),
    ));
    let (result, _) = run(arena, &[(MIXED, b)], body);
    assert_eq!(&result, indexed(inc(arena, a, 1, ret(arena, a))));
}

#[test]
fn a_box_is_released_alone_if_its_content_was_incremented() {
    let arena = &Bump::new();
    let (a, b) = (sym(0), sym(1));
    let unboxed = |rest| bind(arena, a, Expr::ExprUnbox { symbol: b }, STR, rest);
    let body = unboxed(inc(arena, a, 1, dec(arena, b, ret(arena, a))));
    let (result, _) = run(arena, &[(BOXED, b)], body);
    assert_eq!(&result, unboxed(dec_ref(arena, b, ret(arena, a))));
}

#[test]
fn a_box_is_decremented_if_its_content_was_not_incremented() {
    let arena = &Bump::new();
    let (a, b) = (sym(0), sym(1));
    let body = bind(
        arena,
        a,
        Expr::ExprUnbox { symbol: b },
        STR,
        dec(arena, b, ret(arena, a)),
    );
    let (result, _) = run(arena, &[(BOXED, b)], body);
    assert_eq!(&result, body);
}

#[test]
fn one_content_of_a_box_is_used_and_the_other_comes_back() {
    let arena = &Bump::new();
    let (a, b, c) = (sym(0), sym(1), sym(2));
    let unboxed = |rest| {
        bind(
            arena,
            a,
            Expr::ExprUnbox { symbol: b },
            STR,
            bind(arena, c, Expr::ExprUnbox { symbol: b }, STR, rest),
        )
    };
    let body = unboxed(inc(
        arena,
        a,
        1,
        inc(arena, c, 1, dec(arena, b, ret(arena, a))),
    ));
    let (result, _) = run(arena, &[(BOXED, b)], body);
    assert_eq!(
        &result,
        unboxed(inc(arena, c, 1, dec_ref(arena, b, ret(arena, a))))
    );
}

#[test]
fn a_union_is_decremented_as_a_whole() {
    let arena = &Bump::new();
    let (a, b) = (sym(0), sym(1));
    let body = bind(
        arena,
        a,
        union_field(b, 0),
        STR,
        inc(arena, a, 1, dec(arena, b, ret(arena, a))),
    );
    let (result, _) = run(arena, &[(UNION, b)], body);
    assert_eq!(&result, body);
}

#[test]
fn the_increment_of_a_union_child_is_kept_from_the_continuation() {
    let arena = &Bump::new();
    let (a, b) = (sym(0), sym(1));
    let body = bind(
        arena,
        a,
        union_field(b, 0),
        STR,
        inc(arena, a, 1, dec(arena, b, dec(arena, a, ret(arena, b)))),
    );
    let (result, _) = run(arena, &[(UNION, b)], body);
    assert_eq!(&result, body);
}

#[test]
fn calls_and_constructions_forget_increments() {
    let arena = &Bump::new();
    let (a, r) = (sym(0), sym(3));
    let arguments: &[Symbol] = arena.alloc_slice_copy(&[a]);
    for expr in [
        call(arena, a),
        Expr::Tag { tag_layout: UNION, tag_id: 0, arguments },
        Expr::Struct(arguments),
    ] {
        let body = inc(
            arena,
            a,
            1,
            bind(arena, r, expr, STR, dec(arena, a, ret(arena, r))),
        );
        let (result, _) = run(arena, &[(STR, a)], body);
        assert_eq!(&result, body);
    }
}

#[test]
fn other_bindings_forget_nothing() {
    let arena = &Bump::new();
    let (a, b, r) = (sym(0), sym(1), sym(3));
    let update_mode = UpdateModeId(0);
    let arguments: &[Symbol] = arena.alloc_slice_copy(&[a]);
    for expr in [
        Expr::Literal(Literal::Bool(true)),
        Expr::NullPointer,
        Expr::EmptyArray,
        Expr::Array { elem_layout: STR, elems: &[] },
        Expr::GetTagId { structure: b, union_layout: UNION },
        Expr::ExprBox { symbol: b },
        Expr::ExprUnbox { symbol: b },
        union_field(b, 0),
        field(pair(arena), b, 0),
        Expr::Reuse {
            symbol: b,
            update_tag_id: false,
            update_mode,
            tag_layout: UNION,
            tag_id: 0,
            arguments,
        },
        Expr::Reset { symbol: b, update_mode },
        Expr::ResetRef { symbol: b, update_mode },
        Expr::RuntimeErrorFunction("no"),
    ] {
        let body = inc(
            arena,
            a,
            1,
            bind(arena, r, expr, STR, dec(arena, a, ret(arena, r))),
        );
        let (result, _) = run(arena, &[(STR, a), (UNION, b)], body);
        assert_eq!(&result, bind(arena, r, expr, STR, ret(arena, r)));
    }
}

#[test]
fn what_is_known_of_children_survives_a_call() {
    let arena = &Bump::new();
    let (a, b, r) = (sym(0), sym(1), sym(3));
    let fields = mixed(arena);
    let called = |rest| {
        bind(
            arena,
            a,
            field(fields, b, 1),
            STR,
            bind(arena, r, call(arena, a), STR, rest),
        )
    };
    let body = called(inc(arena, a, 1, dec(arena, b, ret(arena, r))));
    let (result, _) = run(arena, &[(MIXED, b)], body);
    assert_eq!(&result, called(ret(arena, r)));
}

fn switch<'a>(
    arena: &'a Bump,
    first: &'a Stmt<'a>,
    second: &'a Stmt<'a>,
    default: &'a Stmt<'a>,
) -> &'a Stmt<'a> {
    let info = BranchInfo::Constructor { scrutinee: sym(5), layout: UNION, tag_id: 1 };
    let nil = arena.alloc(Branches::Nil);
    let last = arena.alloc(Branches::Cons { label: 4, info, branch: second, rest: nil });
    arena.alloc(Stmt::Switch {
        cond_symbol: sym(5),
        cond_layout: INT,
        branches: arena.alloc(Branches::Cons {
            label: 2,
            info: BranchInfo::Nothing,
            branch: first,
            rest: last,
        }),
        default_branch: (info, default),
        ret_layout: STR,
    })
}

#[test]
fn branches_do_not_use_increments_from_before_the_switch() {
    let arena = &Bump::new();
    let a = sym(0);
    let body = inc(
        arena,
        a,
        1,
        switch(
            arena,
            dec(arena, a, ret(arena, a)),
            inc(arena, a, 1, dec(arena, a, ret(arena, a))),
            inc(arena, a, 2, ret(arena, a)),
        ),
    );
    let (result, _) = run(arena, &[(STR, a), (INT, sym(5))], body);
    let expected = inc(
        arena,
        a,
        1,
        switch(
            arena,
            dec(arena, a, ret(arena, a)),
            ret(arena, a),
            inc(arena, a, 2, ret(arena, a)),
        ),
    );
    assert_eq!(&result, expected);
}

#[test]
fn names_are_added_branch_by_branch() {
    let arena = &Bump::new();
    let (a, b) = (sym(0), sym(1));
    let fields = pair(arena);
    let drop = inc(arena, a, 1, dec(arena, b, ret(arena, a)));
    let body = bind(
        arena,
        a,
        field(fields, b, 0),
        STR,
        switch(arena, drop, drop, drop),
    );
    let (result, ident_ids) = run(arena, &[(PAIR, b)], body);
    let release = |position| {
        bind(
            arena,
            sym(position),
            field(fields, b, 1),
            STR,
            dec(arena, sym(position), ret(arena, a)),
        )
    };
    let expected = bind(
        arena,
        a,
        field(fields, b, 0),
        STR,
        switch(arena, release(10), release(11), release(12)),
    );
    assert_eq!(&result, expected);
    assert_eq!(ident_ids.len(), 13);
    assert_eq!(ident_ids.get_name(IdentId(12)), Some("field_val_1"));
}

#[test]
fn only_the_remainder_of_a_join_uses_increments_from_before_it() {
    let arena = &Bump::new();
    let (a, p) = (sym(0), sym(4));
    let id = JoinPointId(sym(6));
    let parameters: &[Param] = arena.alloc_slice_copy(&[Param {
        symbol: p,
        ownership: Ownership::Owned,
        layout: STR,
    }]);
    let arguments: &[Symbol] = arena.alloc_slice_copy(&[a]);
    let jump: &Stmt = arena.alloc(Stmt::Jump(id, arguments));
    let join = |body, remainder| -> &Stmt {
        arena.alloc(Stmt::Join { id, parameters, body, remainder })
    };
    // The parameter is known in the body, where nothing is outstanding.
    let inside = dec(arena, a, dec(arena, p, ret(arena, a)));
    let body = inc(arena, a, 1, join(inside, dec(arena, a, jump)));
    let (result, _) = run(arena, &[(STR, a)], body);
    assert_eq!(&result, join(inside, jump));
}

#[test]
fn other_statements_are_passed_through() {
    let arena = &Bump::new();
    let (a, b) = (sym(0), sym(1));
    let region = Region { start: 1, end: 9 };
    let lookups: &[Symbol] = arena.alloc_slice_copy(&[a]);
    let variables: &[Variable] = arena.alloc_slice_copy(&[Variable(2)]);
    let around = |rest| -> &Stmt {
        let crash_free: &Stmt = arena.alloc(Stmt::Dbg {
            symbol: a,
            variable: Variable(3),
            remainder: dec_ref(arena, b, rest),
        });
        let expect_fx = arena.alloc(Stmt::ExpectFx {
            condition: b,
            region,
            lookups,
            variables,
            remainder: crash_free,
        });
        arena.alloc(Stmt::Expect { condition: b, region, lookups, variables, remainder: expect_fx })
    };
    let crash: &Stmt = arena.alloc(Stmt::Crash(a, CrashTag::User));
    let body = inc(arena, a, 1, around(dec(arena, a, crash)));
    let (result, _) = run(arena, &[(STR, a), (STR, b)], body);
    assert_eq!(&result, around(crash));
}

#[test]
fn new_symbols_are_named_by_their_field() {
    let arena = &Bump::new();
    let (a, b) = (sym(0), sym(1));
    let fields = wide(arena);
    let body = bind(
        arena,
        a,
        field(fields, b, 9),
        STR,
        inc(arena, a, 1, dec(arena, b, ret(arena, a))),
    );
    let (result, ident_ids) = run(arena, &[(WIDE, b)], body);
    // The fields are numbered from the last to the first, and released from the first on.
    assert_eq!(ident_ids.len(), 20);
    assert_eq!(ident_ids.get_name(IdentId(10)), Some("field_val_10"));
    assert_eq!(ident_ids.get_name(IdentId(11)), Some("field_val_8"));
    assert_eq!(ident_ids.get_name(IdentId(19)), Some("field_val_0"));
    let mut expected = ret(arena, a);
    let mut position = 10;
    for index in [10, 8, 7, 6, 5, 4, 3, 2, 1, 0] {
        expected = bind(
            arena,
            sym(position),
            field(fields, b, index),
            STR,
            dec(arena, sym(position), expected),
        );
        position += 1;
    }
    assert_eq!(&result, bind(arena, a, field(fields, b, 9), STR, expected));
}

#[test]
fn procedures_are_rewritten_in_order_and_on_their_own() {
    let arena = &Bump::new();
    let interner = layouts(arena);
    let (a, b) = (sym(0), sym(1));
    let fields = pair(arena);
    let indexed = |rest| bind(arena, a, field(fields, b, 0), STR, rest);
    let first = indexed(inc(arena, a, 1, dec(arena, b, ret(arena, a))));
    // Here the children of `b` are not known, and nothing is outstanding.
    let second = dec(arena, b, dec(arena, a, ret(arena, a)));
    let keys = [
        (sym(2), ProcLayout { arguments: &[], result: STR }),
        (sym(3), ProcLayout { arguments: &[], result: PAIR }),
        (sym(4), ProcLayout { arguments: &[], result: STR }),
    ];
    let before = vec![
        (keys[0], proc(arena, &[(PAIR, b)], first)),
        (keys[1], proc(arena, &[(PAIR, b), (STR, a)], second)),
        (keys[2], proc(arena, &[(PAIR, b)], first)),
    ];
    let mut procs = before.clone();
    let mut ident_ids = names();
    let mut update_mode_ids = UpdateModeIds { next: 0 };
    specialize_drops(
        arena,
        &interner,
        HOME,
        &mut ident_ids,
        &mut update_mode_ids,
        &mut procs,
    );
    let release = |position| {
        indexed(bind(
            arena,
            sym(position),
            field(fields, b, 1),
            STR,
            dec(arena, sym(position), ret(arena, a)),
        ))
    };
    let bodies = [release(10), second, release(11)];
    assert_eq!(procs.len(), 3);
    for i in 0..3 {
        assert_eq!(procs[i].0, keys[i]);
        assert_eq!(procs[i].1, Proc { body: *bodies[i], ..before[i].1 });
    }
    assert_eq!(ident_ids.len(), 12);
}

#[test]
fn a_module_without_procedures_stays_empty() {
    let arena = &Bump::new();
    let interner = layouts(arena);
    let mut ident_ids = IdentIds::new();
    let mut update_mode_ids = UpdateModeIds { next: 0 };
    let mut procs = Vec::new();
    specialize_drops(
        arena,
        &interner,
        HOME,
        &mut ident_ids,
        &mut update_mode_ids,
        &mut procs,
    );
    assert!(procs.is_empty());
    assert_eq!(ident_ids.len(), 0);
}

#[test]
fn a_procedure_notes_its_arguments() {
    let arena = &Bump::new();
    let interner = layouts(arena);
    let a = sym(0);
    let mut ident_ids = names();
    let mut environment = DropSpecializationEnvironment::new(arena, HOME);
    let mut procedure = proc(arena, &[(STR, a)], inc(arena, a, 2, ret(arena, a)));
    let before = procedure;
    specialize_drops_proc(
        arena,
        &interner,
        &mut ident_ids,
        &mut environment,
        &mut procedure,
    );
    assert_eq!(procedure, before);
    assert_eq!(environment.get_symbol_layout(&a), STR);
    assert!(!environment.any_incremented(&a));
}

#[test]
fn a_statement_leaves_outstanding_increments_to_its_caller() {
    let arena = &Bump::new();
    let interner = layouts(arena);
    let a = sym(0);
    let mut ident_ids = names();
    let mut environment = DropSpecializationEnvironment::new(arena, HOME);
    environment.add_symbol_layout(a, STR);
    environment.add_incremented(a, 2);
    let stmt = inc(arena, a, 3, dec(arena, a, ret(arena, a)));
    let result = specialize_drops_stmt(arena, &interner, &mut ident_ids, &mut environment, stmt);
    assert_eq!(result, ret(arena, a));
    assert_eq!(environment.get_incremented(&a), 4);
}

#[test]
fn freeing_releases_the_symbol_alone() {
    let arena = &Bump::new();
    let a = sym(0);
    assert_eq!(
        free(arena, a, ret(arena, a)),
        &Stmt::Refcounting(ModifyRc::DecRef(a), &Stmt::Ret(a))
    );
}
